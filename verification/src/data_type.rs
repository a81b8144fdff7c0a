//! The record: the fields of one flattened object, in the order of their names.

use vstd::prelude::*;
use vstd::string::*;

use crate::error::{CleanResult, ParseError};
use crate::text::{join, join_strings, name_less, place_name, same_name, texts, Placement};

verus! {

/// The name of the field that holds a record's category.
pub const CATEGORY_FIELD: &'static str = "type";

/// The delimiter of a record made from fields alone.
pub const DEFAULT_DELIMITER: &'static str = ";";

/// The name of the field that holds a record's category.
pub open spec fn category_field() -> Seq<char> {
    CATEGORY_FIELD@
}

/// The delimiter of a record made from fields alone.
pub open spec fn default_delimiter() -> Seq<char> {
    DEFAULT_DELIMITER@
}

/// Each name comes before all that follow it, so none occurs twice.
pub open spec fn names_sorted(names: Seq<Seq<char>>) -> bool {
    forall|i: int, j: int|
        0 <= i < j < names.len() ==> name_less(#[trigger] names[i], #[trigger] names[j])
}

/// The mapping that gives each name the value at its position.
pub open spec fn field_map(names: Seq<Seq<char>>, values: Seq<Seq<char>>) -> Map<
    Seq<char>,
    Seq<char>,
> {
    Map::new(|name: Seq<char>| names.contains(name), |name: Seq<char>| values[names.index_of(name)])
}

/// The mapping that a list of (name, value) pairs stands for: of two pairs with one name
/// the later one counts.
pub open spec fn fields_of(pairs: Seq<(Seq<char>, Seq<char>)>) -> Map<Seq<char>, Seq<char>>
    decreases pairs.len(),
{
    if pairs.len() == 0 {
        Map::empty()
    } else {
        fields_of(pairs.drop_last()).insert(pairs.last().0, pairs.last().1)
    }
}

/// The texts of a list of pairs of strings.
pub open spec fn pair_texts(pairs: Seq<(String, String)>) -> Seq<(Seq<char>, Seq<char>)> {
    pairs.map_values(|p: (String, String)| (p.0@, p.1@))
}

/// What a record is: its field names, the value of each at the same position, and the
/// delimiter that its text puts between them.
pub struct RecordView {
    pub names: Seq<Seq<char>>,
    pub values: Seq<Seq<char>>,
    pub delimiter: Seq<char>,
}

impl RecordView {
    /// Every name has its value, and the names are in order.
    pub open spec fn wf(self) -> bool {
        self.names.len() == self.values.len() && names_sorted(self.names)
    }

    /// The record as a mapping from field name to value.
    pub open spec fn fields(self) -> Map<Seq<char>, Seq<char>> {
        field_map(self.names, self.values)
    }

    /// The header line: the names, joined by the delimiter.
    pub open spec fn header_text(self) -> Seq<char> {
        join(self.names, self.delimiter) + seq!['\n']
    }

    /// The data line: the values in the order of their names, joined by the delimiter.
    pub open spec fn data_text(self) -> Seq<char> {
        join(self.values, self.delimiter) + seq!['\n']
    }

    /// The header line followed by the data line.
    pub open spec fn full_text(self) -> Seq<char> {
        self.header_text() + self.data_text()
    }

    /// The value of the category field, if the record has one.
    pub open spec fn category(self) -> Option<Seq<char>> {
        if self.fields().contains_key(category_field()) {
            Some(self.fields()[category_field()])
        } else {
            None
        }
    }
}

/// The record with the given fields and the default delimiter.
pub open spec fn record_of(fields: Map<Seq<char>, Seq<char>>) -> RecordView {
    choose|view: RecordView|
        view.wf() && view.fields() == fields && view.delimiter == default_delimiter()
}

/// Among sorted names a name is found at one position only, where its value stands.
pub proof fn lemma_field_at(names: Seq<Seq<char>>, values: Seq<Seq<char>>, i: int)
    requires
        names_sorted(names),
        0 <= i < names.len(),
    ensures
        names.index_of(names[i]) == i,
        field_map(names, values).contains_key(names[i]),
        field_map(names, values)[names[i]] == values[i],
{
    let k = names.index_of(names[i]);
    assert(names.contains(names[i]));
    crate::text::lemma_name_less_irreflexive(names[i]);
    if k < i {
        assert(name_less(names[k], names[i]));
    } else if i < k {
        assert(name_less(names[i], names[k]));
    }
}

/// Two sorted lists that hold the same names are one list.
pub proof fn lemma_sorted_names_unique(x: Seq<Seq<char>>, y: Seq<Seq<char>>)
    requires
        names_sorted(x),
        names_sorted(y),
        forall|name: Seq<char>| x.contains(name) == y.contains(name),
    ensures
        x == y,
    decreases x.len(),
{
    if x.len() == 0 {
        if y.len() > 0 {
            assert(y.contains(y[0]));
        }
        assert(x =~= y);
    } else {
        let top = x.last();
        assert(x.contains(top));
        assert(y.contains(top));
        let j = y.index_of(top);
        assert(y.contains(y.last()));
        assert(x.contains(y.last()));
        let i = x.index_of(y.last());
        crate::text::lemma_name_less_irreflexive(top);
        if j < y.len() - 1 {
            assert(name_less(y[j], y[y.len() - 1]));
            if i < x.len() - 1 {
                assert(name_less(x[i], x[x.len() - 1]));
                crate::text::lemma_name_less_transitive(top, y.last(), top);
            }
            assert(false);
        }
        let xs = x.drop_last();
        let ys = y.drop_last();
        assert forall|name: Seq<char>| xs.contains(name) == ys.contains(name) by {
            crate::text::lemma_name_less_irreflexive(name);
            if xs.contains(name) {
                let p = xs.index_of(name);
                assert(x[p] == name);
                assert(name_less(x[p], x[x.len() - 1]));
                assert(x.contains(name));
                let q = y.index_of(name);
                assert(ys[q] == name);
            }
            if ys.contains(name) {
                let q = ys.index_of(name);
                assert(y[q] == name);
                assert(name_less(y[q], y[y.len() - 1]));
                assert(y.contains(name));
                let p = x.index_of(name);
                assert(xs[p] == name);
            }
        }
        lemma_sorted_names_unique(xs, ys);
        assert(x =~= xs.push(top));
        assert(y =~= ys.push(top));
    }
}

/// A record is what its fields and its delimiter make it: two well-formed records with
/// the same mapping and the same delimiter have the same names and values in the same
/// order.
pub proof fn lemma_record_determined(a: RecordView, b: RecordView)
    requires
        a.wf(),
        b.wf(),
        a.fields() == b.fields(),
        a.delimiter == b.delimiter,
    ensures
        a == b,
{
    assert forall|name: Seq<char>| a.names.contains(name) == b.names.contains(name) by {
        assert(a.fields().contains_key(name) == a.names.contains(name));
        assert(b.fields().contains_key(name) == b.names.contains(name));
    }
    lemma_sorted_names_unique(a.names, b.names);
    assert forall|i: int| 0 <= i < a.values.len() implies a.values[i] == b.values[i] by {
        lemma_field_at(a.names, a.values, i);
        lemma_field_at(b.names, b.values, i);
    }
    assert(a.values =~= b.values);
}

/// The names of a list of pairs.
pub open spec fn pair_names(pairs: Seq<(Seq<char>, Seq<char>)>) -> Seq<Seq<char>> {
    pairs.map_values(|p: (Seq<char>, Seq<char>)| p.0)
}

/// The mapping of a list of pairs holds the names of the pairs and no others.
pub proof fn lemma_fields_of_names(pairs: Seq<(Seq<char>, Seq<char>)>, name: Seq<char>)
    ensures
        fields_of(pairs).contains_key(name) == pair_names(pairs).contains(name),
    decreases pairs.len(),
{
    if pairs.len() > 0 {
        lemma_fields_of_names(pairs.drop_last(), name);
        let rest = pair_names(pairs.drop_last());
        assert(pair_names(pairs) =~= rest.push(pairs.last().0));
        if rest.contains(name) {
            let at = rest.index_of(name);
            assert(pair_names(pairs)[at] == name);
        }
        if pairs.last().0 == name {
            assert(pair_names(pairs)[pairs.len() - 1] == name);
        }
    }
}

/// Where no name occurs twice, the mapping of a list of pairs gives each name the value
/// that stands with it.
pub proof fn lemma_fields_of_member(pairs: Seq<(Seq<char>, Seq<char>)>, at: int)
    requires
        pair_names(pairs).no_duplicates(),
        0 <= at < pairs.len(),
    ensures
        fields_of(pairs).contains_key(pairs[at].0),
        fields_of(pairs)[pairs[at].0] == pairs[at].1,
    decreases pairs.len(),
{
    if at < pairs.len() - 1 {
        assert(pair_names(pairs.drop_last()) =~= pair_names(pairs).drop_last());
        assert(pair_names(pairs)[at] != pair_names(pairs)[pairs.len() - 1]);
        lemma_fields_of_member(pairs.drop_last(), at);
    }
}

/// The order of the members of an object does not matter: two lists of pairs in which
/// no name occurs twice and which hold the same pairs stand for the same mapping, and
/// so for the same record.
pub proof fn lemma_member_order_is_irrelevant(
    first: Seq<(Seq<char>, Seq<char>)>,
    second: Seq<(Seq<char>, Seq<char>)>,
)
    requires
        pair_names(first).no_duplicates(),
        pair_names(second).no_duplicates(),
        first.to_set() == second.to_set(),
    ensures
        fields_of(first) == fields_of(second),
        record_of(fields_of(first)) == record_of(fields_of(second)),
{
    let one = fields_of(first);
    let other = fields_of(second);
    assert forall|name: Seq<char>| #[trigger] one.dom().contains(name) == other.dom().contains(
        name,
    ) by {
        if one.contains_key(name) {
            lemma_member_moves(first, second, name);
        }
        if other.contains_key(name) {
            lemma_member_moves(second, first, name);
        }
    }
    assert forall|name: Seq<char>| #[trigger] one.dom().contains(name) implies one[name]
        == other[name] by {
        lemma_member_moves(first, second, name);
    }
    assert(one =~= other);
}

/// A name with its value in one list of pairs has the same value in a list that holds
/// the same pairs.
proof fn lemma_member_moves(
    from: Seq<(Seq<char>, Seq<char>)>,
    to: Seq<(Seq<char>, Seq<char>)>,
    name: Seq<char>,
)
    requires
        pair_names(from).no_duplicates(),
        pair_names(to).no_duplicates(),
        from.to_set() == to.to_set(),
        fields_of(from).contains_key(name),
    ensures
        fields_of(to).contains_key(name),
        fields_of(to)[name] == fields_of(from)[name],
{
    lemma_fields_of_names(from, name);
    let at = pair_names(from).index_of(name);
    lemma_fields_of_member(from, at);
    assert(from.contains(from[at]));
    assert(from.to_set().contains(from[at]));
    assert(to.contains(from[at]));
    let there = to.index_of(from[at]);
    lemma_fields_of_member(to, there);
}

/// Puts a value under a name into sorted names and their values: in place of the value
/// that the name had, or at the position that keeps the names sorted.
fn insert_field(names: &mut Vec<String>, values: &mut Vec<String>, name: String, value: String)
    requires
        old(names)@.len() == old(values)@.len(),
        names_sorted(texts(old(names)@)),
    ensures
        final(names)@.len() == final(values)@.len(),
        names_sorted(texts(final(names)@)),
        field_map(texts(final(names)@), texts(final(values)@)) == field_map(
            texts(old(names)@),
            texts(old(values)@),
        ).insert(name@, value@),
{
    let ghost old_names = texts(names@);
    let ghost old_values = texts(values@);
    let mut i: usize = 0;
    let mut found = false;
    while i < names.len()
        invariant_except_break
            !found,
        invariant
            i <= names@.len(),
            forall|j: int| 0 <= j < i ==> name_less(#[trigger] texts(names@)[j], name@),
        ensures
            i <= names@.len(),
            forall|j: int| 0 <= j < i ==> name_less(#[trigger] texts(names@)[j], name@),
            found ==> i < names@.len() && texts(names@)[i as int] == name@,
            !found && i < names@.len() ==> name_less(name@, texts(names@)[i as int]),
        decreases names@.len() - i,
    {
        match place_name(names[i].as_str(), name.as_str()) {
            Placement::Before => {
                i += 1;
            },
            Placement::Same => {
                found = true;
                break ;
            },
            Placement::After => {
                break ;
            },
        }
    }
    if found {
        values.set(i, value);
        proof {
            let new_values = texts(values@);
            assert(new_values =~= old_values.update(i as int, value@));
            assert forall|k: Seq<char>| old_names.contains(k) implies #[trigger] field_map(
                old_names,
                new_values,
            )[k] == field_map(old_names, old_values).insert(name@, value@)[k] by {
                lemma_field_at(old_names, old_values, i as int);
            }
            assert(field_map(old_names, new_values) =~= field_map(old_names, old_values).insert(
                name@,
                value@,
            ));
        }
    } else {
        names.insert(i, name);
        values.insert(i, value);
        proof {
            let new_names = texts(names@);
            let new_values = texts(values@);
            assert(new_names =~= old_names.insert(i as int, name@));
            assert(new_values =~= old_values.insert(i as int, value@));
            assert forall|a: int, b: int| 0 <= a < b < new_names.len() implies name_less(
                #[trigger] new_names[a],
                #[trigger] new_names[b],
            ) by {
                if a == i && b > i + 1 {
                    crate::text::lemma_name_less_transitive(
                        name@,
                        old_names[i as int],
                        old_names[b - 1],
                    );
                }
            }
            assert forall|k: Seq<char>| #[trigger] new_names.contains(k) == (old_names.contains(k)
                || k == name@) by {
                if old_names.contains(k) {
                    let p = old_names.index_of(k);
                    assert(new_names[if p < i { p } else { p + 1 }] == k);
                }
                if k == name@ {
                    assert(new_names[i as int] == k);
                }
                if new_names.contains(k) {
                    let p = new_names.index_of(k);
                    if p < i {
                        assert(old_names[p] == k);
                    } else if p > i {
                        assert(old_names[p - 1] == k);
                    }
                }
            }
            assert forall|k: Seq<char>| new_names.contains(k) implies #[trigger] field_map(
                new_names,
                new_values,
            )[k] == field_map(old_names, old_values).insert(name@, value@)[k] by {
                let p = new_names.index_of(k);
                lemma_field_at(new_names, new_values, p);
                lemma_field_at(new_names, new_values, i as int);
                if p < i {
                    lemma_field_at(old_names, old_values, p);
                } else if p > i {
                    lemma_field_at(old_names, old_values, p - 1);
                }
            }
            assert(field_map(new_names, new_values) =~= field_map(old_names, old_values).insert(
                name@,
                value@,
            ));
        }
    }
}

/// The fields of one flattened object: a value for each name, the names in the order in
/// which strings compare, and the delimiter used when the record is written as text.
#[derive(Debug)]
pub struct Record {
    names: Vec<String>,
    values: Vec<String>,
    delimiter: String,
}

impl View for Record {
    type V = RecordView;

    closed spec fn view(&self) -> RecordView {
        RecordView {
            names: texts(self.names@),
            values: texts(self.values@),
            delimiter: self.delimiter@,
        }
    }
}

impl Record {
    #[verifier::type_invariant]
    spec fn inv(self) -> bool {
        self@.wf()
    }

    /// The value of a field, if the record has a field of that name.
    pub fn get(&self, name: &str) -> (r: Option<&String>)
        ensures
            self@.wf(),
            match r {
                Some(value) => self@.fields().contains_key(name@) && value@
                    == self@.fields()[name@],
                None => !self@.fields().contains_key(name@),
            },
    {
        proof {
            use_type_invariant(self);
        }
        let mut i: usize = 0;
        while i < self.names.len()
            invariant
                i <= self.names@.len(),
                self@.wf(),
                forall|j: int| 0 <= j < i ==> #[trigger] self@.names[j] != name@,
            decreases self.names@.len() - i,
        {
            if same_name(self.names[i].as_str(), name) {
                proof {
                    lemma_field_at(self@.names, self@.values, i as int);
                }
                return Some(&self.values[i]);
            }
            i += 1;
        }
        None
    }

    /// The record's category: the value of its category field.
    pub fn get_type(&self) -> (r: CleanResult<String>)
        ensures
            match r {
                Ok(category) => self@.category() == Some(category@),
                Err(e) => self@.category().is_none() && e == ParseError::MissingField,
            },
    {
        match self.get(CATEGORY_FIELD) {
            Some(value) => Ok(value.clone()),
            None => Err(ParseError::MissingField),
        }
    }

    /// The data line of the record: its values in the order of their names, joined by the
    /// delimiter, and a line end.
    pub fn to_headless_string(&self) -> (r: String)
        ensures
            r@ == self@.data_text(),
    {
        let mut line = join_strings(&self.values, self.delimiter.as_str());
        proof {
            reveal_strlit("\n");
            assert("\n"@ =~= seq!['\n']);
        }
        line.append("\n");
        line
    }

    /// The header line of the record, then its data line.
    pub fn to_string(&self) -> (r: String)
        ensures
            r@ == self@.full_text(),
    {
        let mut text = join_strings(&self.names, self.delimiter.as_str());
        proof {
            reveal_strlit("\n");
            assert("\n"@ =~= seq!['\n']);
        }
        text.append("\n");
        let data = self.to_headless_string();
        text.append(data.as_str());
        text
    }

    /// The delimiter that the record's text puts between names and between values.
    pub fn delimiter(&self) -> (r: &String)
        ensures
            r@ == self@.delimiter,
    {
        &self.delimiter
    }

    /// Replaces the delimiter. The fields stay as they are.
    pub fn set_delimiter(&mut self, delimiter: String)
        ensures
            final(self)@.names == old(self)@.names,
            final(self)@.values == old(self)@.values,
            final(self)@.delimiter == delimiter@,
    {
        proof {
            use_type_invariant(&*self);
        }
        self.delimiter = delimiter;
    }

    /// The number of fields.
    pub fn len(&self) -> (r: usize)
        ensures
            self@.wf(),
            r == self@.names.len(),
    {
        proof {
            use_type_invariant(self);
        }
        self.names.len()
    }
}

impl Clone for Record {
    /// A record with the same fields and the same delimiter.
    fn clone(&self) -> (r: Record)
        ensures
            r@ == self@,
    {
        proof {
            use_type_invariant(self);
        }
        let names = self.names.clone();
        let values = self.values.clone();
        proof {
            assert(names@ =~= self.names@);
            assert(values@ =~= self.values@);
        }
        Record { names, values, delimiter: self.delimiter.clone() }
    }
}

impl From<Vec<(String, String)>> for Record {
    /// The record of the given (name, value) pairs, with the default delimiter. Of two
    /// pairs with one name the later one counts.
    fn from(value: Vec<(String, String)>) -> (r: Record)
        ensures
            r@.wf(),
            r@.fields() == fields_of(pair_texts(value@)),
            r@.delimiter == default_delimiter(),
            r@ == record_of(fields_of(pair_texts(value@))),
    {
        let mut names: Vec<String> = Vec::new();
        let mut values: Vec<String> = Vec::new();
        let ghost pairs = pair_texts(value@);
        proof {
            assert(field_map(texts(names@), texts(values@)) =~= fields_of(pairs.take(0)));
        }
        for pair in it: value
            invariant
                pair_texts(it.seq()) == pairs,
                names@.len() == values@.len(),
                names_sorted(texts(names@)),
                field_map(texts(names@), texts(values@)) == fields_of(pairs.take(it.index())),
        {
            proof {
                assert(pairs.take(it.index() + 1).drop_last() =~= pairs.take(it.index()));
            }
            insert_field(&mut names, &mut values, pair.0, pair.1);
        }
        let record = Record { names, values, delimiter: String::from_str(DEFAULT_DELIMITER) };
        proof {
            assert(pairs.take(pairs.len() as int) =~= pairs);
            lemma_record_determined(record@, record_of(fields_of(pairs)));
        }
        record
    }
}

impl vstd::std_specs::convert::FromSpecImpl<Vec<(String, String)>> for Record {
    open spec fn obeys_from_spec() -> bool {
        false
    }

    open spec fn from_spec(v: Vec<(String, String)>) -> Record {
        arbitrary()
    }
}

} // verus!
