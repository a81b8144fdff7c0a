//! What holds of the sinks of a router, whatever records are dispatched and in whatever
//! order.

use vstd::prelude::*;

use crate::category_writer::{
    categories, categorized_prefix, chunk_of, concat, dispatched, dispatched_all, fetched,
    flushed_sink, lemma_category_at, sink_file_name, sinks_wf, SinkView, TargetView,
};
use crate::data_type::{names_sorted, RecordView};
use crate::text::join;

verus! {

/// Writing a record to a sink appends text to the text of the sink and changes nothing
/// of what was there: the data line, after the header line where the sink had none.
pub proof fn lemma_written_appends(sink: SinkView, record: RecordView)
    requires
        sink.wf(),
    ensures
        sink.written(record).wf(),
        sink.written(record).text() == sink.text() + sink.appended(record),
        sink.written(record).category == sink.category,
        sink.written(record).file_name == sink.file_name,
        sink.header_written ==> sink.written(record).header == sink.header,
{
    let after = sink.written(record);
    assert(after.lines.drop_last() =~= sink.lines);
    assert(concat(after.lines) == concat(sink.lines) + record.data_text());
    assert(after.text() =~= sink.text() + sink.appended(record));
}

/// Dispatching a record of a category that has a sink writes the record to that sink;
/// dispatching one of a category that has none adds a sink, which holds the record
/// after its header line. Either way the sinks stay well formed.
pub proof fn lemma_dispatched_shape(target: TargetView, sinks: Seq<SinkView>, record: RecordView)
    requires
        sinks_wf(target, sinks),
        record.category().is_some(),
    ensures
        sinks_wf(target, dispatched(target, sinks, record)),
        categories(sinks).contains(record.category().unwrap()) ==> dispatched(
            target,
            sinks,
            record,
        ) == sinks.update(
            categories(sinks).index_of(record.category().unwrap()),
            sinks[categories(sinks).index_of(record.category().unwrap())].written(record),
        ),
        !categories(sinks).contains(record.category().unwrap()) ==> dispatched(
            target,
            sinks,
            record,
        ) == sinks.push(SinkView::fresh(target, record.category().unwrap()).written(record)),
{
    let category = record.category().unwrap();
    let with_sink = fetched(target, sinks, category);
    let after = dispatched(target, sinks, record);
    if categories(sinks).contains(category) {
        let at = categories(sinks).index_of(category);
        lemma_written_appends(sinks[at], record);
        assert(categories(after) =~= categories(sinks));
    } else {
        let fresh = SinkView::fresh(target, category);
        assert(categories(with_sink) =~= categories(sinks).push(category));
        lemma_category_at(with_sink, sinks.len() as int);
        lemma_written_appends(fresh, record);
        assert(after =~= sinks.push(fresh.written(record)));
        assert(categories(after) =~= categories(sinks).push(category));
    }
}

/// Dispatching any records keeps the sinks well formed.
pub proof fn lemma_dispatched_all_wf(
    target: TargetView,
    sinks: Seq<SinkView>,
    records: Seq<RecordView>,
)
    requires
        sinks_wf(target, sinks),
    ensures
        sinks_wf(target, dispatched_all(target, sinks, records)),
    decreases records.len(),
{
    if records.len() > 0 {
        lemma_dispatched_all_wf(target, sinks, records.drop_last());
        if records.last().category().is_some() {
            lemma_dispatched_shape(
                target,
                dispatched_all(target, sinks, records.drop_last()),
                records.last(),
            );
        }
    }
}

/// The header of a category is the header line of the record that is first seen for it:
/// the names of the record's fields in their order, joined by the record's delimiter.
/// The sink made for the category holds that header line and then the record's data
/// line.
pub proof fn lemma_first_record_sets_header(
    target: TargetView,
    sinks: Seq<SinkView>,
    record: RecordView,
)
    requires
        sinks_wf(target, sinks),
        record.wf(),
        record.category().is_some(),
        !categories(sinks).contains(record.category().unwrap()),
    ensures
        names_sorted(record.names),
        forall|name: Seq<char>|
            record.names.contains(name) == #[trigger] record.fields().contains_key(name),
        dispatched(target, sinks, record).len() == sinks.len() + 1,
        dispatched(target, sinks, record).last().category == record.category().unwrap(),
        dispatched(target, sinks, record).last().file_name == sink_file_name(
            target,
            record.category().unwrap(),
        ),
        dispatched(target, sinks, record).last().header == join(record.names, record.delimiter)
            + seq!['\n'],
        dispatched(target, sinks, record).last().text() == record.header_text()
            + record.data_text(),
{
    lemma_dispatched_shape(target, sinks, record);
    let fresh = SinkView::fresh(target, record.category().unwrap());
    lemma_written_appends(fresh, record);
    assert(fresh.text() =~= Seq::<char>::empty());
    assert(fresh.written(record).text() =~= record.full_text());
}

/// A header, once written, stays: dispatching a record removes no sink, moves none, and
/// leaves the category, the file name and the written header of every sink as they
/// were. The text of a sink only grows at its end, by the data line of the record where
/// the sink is that of the record's category, and not at all otherwise.
pub proof fn lemma_dispatch_keeps_headers(
    target: TargetView,
    sinks: Seq<SinkView>,
    record: RecordView,
    i: int,
)
    requires
        sinks_wf(target, sinks),
        0 <= i < sinks.len(),
    ensures
        dispatched(target, sinks, record).len() >= sinks.len(),
        dispatched(target, sinks, record)[i].category == sinks[i].category,
        dispatched(target, sinks, record)[i].file_name == sinks[i].file_name,
        sinks[i].header_written ==> dispatched(target, sinks, record)[i].header_written
            && dispatched(target, sinks, record)[i].header == sinks[i].header,
        dispatched(target, sinks, record)[i].text() == sinks[i].text() + if record.category()
            == Some(sinks[i].category) {
            sinks[i].appended(record)
        } else {
            Seq::empty()
        },
{
    let after = dispatched(target, sinks, record);
    lemma_category_at(sinks, i);
    if record.category().is_some() {
        let category = record.category().unwrap();
        lemma_dispatched_shape(target, sinks, record);
        if categories(sinks).contains(category) {
            let at = categories(sinks).index_of(category);
            assert(categories(sinks)[at] == category);
            lemma_written_appends(sinks[at], record);
        }
    }
    if record.category() != Some(sinks[i].category) {
        assert(after[i] == sinks[i]);
        assert(sinks[i].text() + Seq::<char>::empty() =~= sinks[i].text());
    }
}

/// Dispatching in batches comes to the same as dispatching all at once: the sinks after
/// one batch and then another are the sinks after the records of both, in that order.
pub proof fn lemma_dispatch_in_batches(
    target: TargetView,
    sinks: Seq<SinkView>,
    first: Seq<RecordView>,
    second: Seq<RecordView>,
)
    ensures
        dispatched_all(target, dispatched_all(target, sinks, first), second) == dispatched_all(
            target,
            sinks,
            first + second,
        ),
    decreases second.len(),
{
    if second.len() == 0 {
        assert(first + second =~= first);
    } else {
        lemma_dispatch_in_batches(target, sinks, first, second.drop_last());
        assert((first + second).drop_last() =~= first + second.drop_last());
        assert((first + second).last() == second.last());
    }
}

/// A flush loses nothing and repeats nothing: what it hands out for a sink starts where
/// the text handed out before ends and goes to the end of the sink's text, and the text
/// of the sink stays as it is.
pub proof fn lemma_flush_hands_out_the_rest(sink: SinkView)
    requires
        sink.wf(),
    ensures
        flushed_sink(sink).wf(),
        flushed_sink(sink).text() == sink.text(),
        sink.text().take(sink.flushed as int) + chunk_of(sink).text == sink.text(),
        flushed_sink(sink).flushed == sink.text().len(),
        flushed_sink(sink).pending().len() == 0,
{
    assert(sink.text().take(sink.flushed as int) + sink.text().skip(sink.flushed as int)
        =~= sink.text());
}

/// The data lines of the records of a category, in the order of the records.
pub open spec fn data_lines(records: Seq<RecordView>, category: Seq<char>) -> Seq<Seq<char>>
    decreases records.len(),
{
    if records.len() == 0 {
        Seq::empty()
    } else if records.last().category() == Some(category) {
        data_lines(records.drop_last(), category).push(records.last().data_text())
    } else {
        data_lines(records.drop_last(), category)
    }
}

/// The header line of the first record of a category; no text where the records hold
/// none of that category.
pub open spec fn first_header(records: Seq<RecordView>, category: Seq<char>) -> Seq<char>
    decreases records.len(),
{
    if records.len() == 0 {
        Seq::empty()
    } else if data_lines(records.drop_last(), category).len() > 0 {
        first_header(records.drop_last(), category)
    } else if records.last().category() == Some(category) {
        records.last().header_text()
    } else {
        Seq::empty()
    }
}

/// What a router that started without sinks holds after any records were dispatched,
/// in whatever order they came. A category has a sink if and only if a record of that
/// category was among them, so there are as many sinks as categories. The sink of a
/// category holds one header line, that of the first record of the category, and after
/// it the data line of every record of the category, each once, in the order in which
/// the records came.
pub proof fn lemma_fresh_router_artifacts(
    target: TargetView,
    records: Seq<RecordView>,
    category: Seq<char>,
)
    ensures
        sinks_wf(target, dispatched_all(target, Seq::empty(), records)),
        categories(dispatched_all(target, Seq::empty(), records)).contains(category)
            == (data_lines(records, category).len() > 0),
        data_lines(records, category).len() > 0 ==> ({
            let sinks = dispatched_all(target, Seq::empty(), records);
            let sink = sinks[categories(sinks).index_of(category)];
            &&& sink.category == category
            &&& sink.file_name == sink_file_name(target, category)
            &&& sink.header_written
            &&& sink.header == first_header(records, category)
            &&& sink.lines == data_lines(records, category)
            &&& sink.text() == first_header(records, category) + concat(
                data_lines(records, category),
            )
        }),
    decreases records.len(),
{
    let empty = Seq::<SinkView>::empty();
    let after = dispatched_all(target, empty, records);
    if records.len() == 0 {
        assert(categories(empty) =~= Seq::<Seq<char>>::empty());
    } else {
        let last = records.last();
        let before = dispatched_all(target, empty, records.drop_last());
        lemma_fresh_router_artifacts(target, records.drop_last(), category);
        match last.category() {
            None => {},
            Some(other) => {
                lemma_dispatched_shape(target, before, last);
                if categories(before).contains(other) {
                    let at = categories(before).index_of(other);
                    assert(categories(before)[at] == other);
                    assert(categories(after) =~= categories(before));
                    if other == category {
                        assert(after[at].lines =~= data_lines(records, category));
                    } else if categories(before).contains(category) {
                        let own = categories(before).index_of(category);
                        assert(categories(before)[own] == category);
                        assert(after[own] == before[own]);
                    }
                } else {
                    let made = SinkView::fresh(target, other).written(last);
                    assert(categories(after) =~= categories(before).push(other));
                    if other == category {
                        lemma_fresh_router_artifacts(target, records.drop_last(), other);
                        lemma_category_at(after, before.len() as int);
                        assert(made.lines =~= data_lines(records, category));
                    } else if categories(before).contains(category) {
                        let own = categories(before).index_of(category);
                        assert(categories(before)[own] == category);
                        lemma_category_at(after, own);
                    } else {
                        if categories(after).contains(category) {
                            let k = categories(after).index_of(category);
                            assert(categories(after)[k] == category);
                            if k < before.len() {
                                assert(categories(before)[k] == category);
                            }
                        }
                    }
                }
            },
        }
    }
}

/// The number of data lines in all the sinks together.
pub open spec fn total_lines(sinks: Seq<SinkView>) -> nat
    decreases sinks.len(),
{
    if sinks.len() == 0 {
        0
    } else {
        total_lines(sinks.drop_last()) + sinks.last().lines.len()
    }
}

/// The number of records that have a category.
pub open spec fn categorized_count(records: Seq<RecordView>) -> nat
    decreases records.len(),
{
    if records.len() == 0 {
        0
    } else if records.last().category().is_some() {
        categorized_count(records.drop_last()) + 1
    } else {
        categorized_count(records.drop_last())
    }
}

/// Replacing one sink changes the number of data lines by what the sink gains.
pub proof fn lemma_total_lines_update(sinks: Seq<SinkView>, at: int, sink: SinkView)
    requires
        0 <= at < sinks.len(),
    ensures
        total_lines(sinks.update(at, sink)) + sinks[at].lines.len() == total_lines(sinks)
            + sink.lines.len(),
    decreases sinks.len(),
{
    if at == sinks.len() - 1 {
        assert(sinks.update(at, sink).drop_last() =~= sinks.drop_last());
    } else {
        assert(sinks.update(at, sink).drop_last() =~= sinks.drop_last().update(at, sink));
        lemma_total_lines_update(sinks.drop_last(), at, sink);
    }
}

/// Where every record has a category, all of them are counted.
pub proof fn lemma_all_categorized(records: Seq<RecordView>)
    requires
        categorized_prefix(records) == records.len(),
    ensures
        categorized_count(records) == records.len(),
    decreases records.len(),
{
    if records.len() > 0 {
        crate::category_writer::lemma_categorized_prefix_bounded(records.drop_last());
        lemma_all_categorized(records.drop_last());
    }
}

/// No record is lost and none is written twice: dispatching records adds one data line
/// for each record that has a category, whatever the categories are and in whatever
/// order the records come. Where all `n` records have a category, the sinks hold `n`
/// data lines more than before.
pub proof fn lemma_one_line_per_record(
    target: TargetView,
    sinks: Seq<SinkView>,
    records: Seq<RecordView>,
)
    requires
        sinks_wf(target, sinks),
    ensures
        total_lines(dispatched_all(target, sinks, records)) == total_lines(sinks)
            + categorized_count(records),
        categorized_prefix(records) == records.len() ==> total_lines(
            dispatched_all(target, sinks, records),
        ) == total_lines(sinks) + records.len(),
    decreases records.len(),
{
    if records.len() > 0 {
        let last = records.last();
        let before = dispatched_all(target, sinks, records.drop_last());
        lemma_one_line_per_record(target, sinks, records.drop_last());
        lemma_dispatched_all_wf(target, sinks, records.drop_last());
        if last.category().is_some() {
            let category = last.category().unwrap();
            lemma_dispatched_shape(target, before, last);
            if categories(before).contains(category) {
                let at = categories(before).index_of(category);
                assert(categories(before)[at] == category);
                lemma_total_lines_update(before, at, before[at].written(last));
            } else {
                let made = SinkView::fresh(target, category).written(last);
                assert(before.push(made).drop_last() =~= before);
                assert(made.lines.len() == 1);
            }
        }
    }
    if categorized_prefix(records) == records.len() {
        lemma_all_categorized(records);
    }
}

} // verus!
