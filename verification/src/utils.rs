//! Flattening: from one line of text to a record, or to the reason why the line is dropped.

use vstd::prelude::*;
use vstd::std_specs::iter::IteratorSpec;
use vstd::string::*;

use crate::data_type::{
    category_field, default_delimiter, fields_of, pair_texts, record_of, Record,
};
use crate::error::{CleanResult, ParseError};
use crate::text::{same_name, texts};

verus! {

/// The longest run of decimal digits that a line may hold. The JSON parser counts the
/// digits of a fraction in sixteen bits, and a longer run could take the count past
/// what they hold.
pub const MAX_DIGIT_RUN: usize = 32768;

/// Whether a character is an ASCII decimal digit.
pub open spec fn is_digit(c: char) -> bool {
    48 <= (c as u32) <= 57
}

/// The length of the run of digits that ends the text.
pub open spec fn trailing_digits(text: Seq<char>) -> nat
    decreases text.len(),
{
    if text.len() == 0 || !is_digit(text.last()) {
        0
    } else {
        trailing_digits(text.drop_last()) + 1
    }
}

/// The length of the longest run of digits in the text.
pub open spec fn longest_digit_run(text: Seq<char>) -> nat
    decreases text.len(),
{
    if text.len() == 0 {
        0
    } else if longest_digit_run(text.drop_last()) >= trailing_digits(text) {
        longest_digit_run(text.drop_last())
    } else {
        trailing_digits(text)
    }
}

/// Whether no run of digits in the text is longer than `MAX_DIGIT_RUN`.
pub open spec fn digits_fit(text: Seq<char>) -> bool {
    longest_digit_run(text) <= MAX_DIGIT_RUN
}

/// No run of digits is longer than the text that holds it.
pub proof fn lemma_digit_run_bounded(text: Seq<char>)
    ensures
        trailing_digits(text) <= text.len(),
        longest_digit_run(text) <= text.len(),
    decreases text.len(),
{
    if text.len() > 0 {
        lemma_digit_run_bounded(text.drop_last());
    }
}

/// A text has no more characters than its UTF-8 encoding has bytes.
pub proof fn lemma_chars_within_bytes(text: Seq<char>)
    ensures
        text.len() <= vstd::utf8::encode_utf8(text).len(),
    decreases text.len(),
{
    if text.len() > 0 {
        lemma_chars_within_bytes(text.drop_first());
    }
}

/// Whether no run of digits in the line is longer than `MAX_DIGIT_RUN`.
pub fn digit_runs_fit(line: &str) -> (r: bool)
    ensures
        r == digits_fit(line@),
{
    if line.as_bytes().len() <= MAX_DIGIT_RUN {
        proof {
            lemma_chars_within_bytes(line@);
            lemma_digit_run_bounded(line@);
        }
        return true;
    }
    let mut rest = line.chars();
    let mut run: usize = 0;
    let mut longest: usize = 0;
    let ghost mut at: int = 0;
    proof {
        assert(line@.skip(0) =~= line@);
        lemma_chars_within_bytes(line@);
    }
    loop
        invariant
            0 <= at <= line@.len(),
            line@.len() <= usize::MAX,
            rest.remaining() == line@.skip(at),
            run == trailing_digits(line@.take(at)),
            longest == longest_digit_run(line@.take(at)),
            run <= at,
            longest <= at,
        decreases line@.len() - at,
    {
        match rest.next() {
            None => {
                proof {
                    assert(line@.take(at) =~= line@);
                }
                return longest <= MAX_DIGIT_RUN;
            },
            Some(c) => {
                proof {
                    assert(line@.take(at + 1).drop_last() =~= line@.take(at));
                    assert(line@.skip(at).drop_first() =~= line@.skip(at + 1));
                    at = at + 1;
                }
                if (c as u32) >= 48 && (c as u32) <= 57 {
                    run += 1;
                } else {
                    run = 0;
                }
                if run > longest {
                    longest = run;
                }
            },
        }
    }
}

/// The error with which the JSON parser rejects a text.
#[verifier::external_type_specification]
#[verifier::external_body]
pub struct ExJsonError(json::Error);

/// What `json::parse` makes of a text: `None` where it rejects the text, `Some(None)` where
/// the text is a JSON value other than an object, and for an object its members in the
/// order in which the object hands them out, each as its name and the text that the value
/// displays as.
pub uninterp spec fn json_members(text: Seq<char>) -> Option<Option<Seq<(Seq<char>, Seq<char>)>>>;

/// What `str::to_lowercase` makes of a text.
pub uninterp spec fn lowercase(text: Seq<char>) -> Seq<char>;

/// The name of the field by which the service reports a failure.
pub const ERROR_FIELD: &'static str = "error";

/// The name of the field by which the service reports a failure.
pub open spec fn error_field() -> Seq<char> {
    ERROR_FIELD@
}

/// Parses a line with `json::parse` and, where the result is an object, hands out its
/// members as `Object::iter` yields them, each value turned into text by its `Display`:
/// a string as it is, anything else as compact JSON. The result is the one that
/// `json_members` names. Lines with an overlong run of digits are left out, since the
/// parser counts the digits of a fraction in sixteen bits. The contract is taken on
/// trust: nothing of it is proved.
#[verifier::external_body]
fn parse_members(line: &str) -> (r: Result<Option<Vec<(String, String)>>, json::Error>)
    requires
        digits_fit(line@),
    ensures
        match r {
            Ok(Some(members)) => json_members(line@) == Some(Some(pair_texts(members@))),
            Ok(None) => json_members(line@) == Some(None::<Seq<(Seq<char>, Seq<char>)>>),
            Err(_) => json_members(line@).is_none(),
        },
{
    match json::parse(line)? {
        json::JsonValue::Object(object) => Ok(
            Some(object.iter().map(|(name, text)| (name.to_string(), text.to_string())).collect()),
        ),
        _ => Ok(None),
    }
}

/// Lowers the case of a text with `str::to_lowercase`. The result is the one that
/// `lowercase` names. The contract is taken on trust: nothing of it is proved.
#[verifier::external_body]
fn to_lowercase(text: &str) -> (r: String)
    ensures
        r@ == lowercase(text@),
{
    text.to_lowercase()
}

impl From<json::Error> for ParseError {
    /// A text that the JSON parser rejects is invalid input, whatever the parser says of it.
    fn from(_rejected: json::Error) -> (r: ParseError)
        ensures
            r == ParseError::InvalidInput,
    {
        ParseError::InvalidInput
    }
}

impl vstd::std_specs::convert::FromSpecImpl<json::Error> for ParseError {
    open spec fn obeys_from_spec() -> bool {
        true
    }

    open spec fn from_spec(v: json::Error) -> ParseError {
        ParseError::InvalidInput
    }
}

/// Whether a category, given in lower case, passes a filter: an empty filter lets every
/// category pass, another one those that it lists.
pub open spec fn admitted(lowered: Seq<char>, allowed: Seq<Seq<char>>) -> bool {
    allowed.len() == 0 || allowed.contains(lowered)
}

/// What becomes of an object with the given members: the reason why it is dropped, or
/// the fields of its record.
pub open spec fn select_fields(
    members: Seq<(Seq<char>, Seq<char>)>,
    allowed: Seq<Seq<char>>,
) -> Result<Map<Seq<char>, Seq<char>>, ParseError> {
    let fields = fields_of(members);
    if fields.contains_key(error_field()) {
        Err(ParseError::UpstreamError)
    } else if !fields.contains_key(category_field()) {
        Err(ParseError::FilteredOut)
    } else if !admitted(lowercase(fields[category_field()]), allowed) {
        Err(ParseError::FilteredOut)
    } else {
        Ok(fields)
    }
}

/// What becomes of a line: the reason why it is dropped, or the fields of its record.
pub open spec fn flatten_outcome(text: Seq<char>, allowed: Seq<Seq<char>>) -> Result<
    Map<Seq<char>, Seq<char>>,
    ParseError,
> {
    if !digits_fit(text) {
        Err(ParseError::InvalidInput)
    } else {
        match json_members(text) {
            Some(Some(members)) => select_fields(members, allowed),
            _ => Err(ParseError::InvalidInput),
        }
    }
}

/// Whether a result is the one that an outcome asks for: the same error, or the record
/// with the outcome's fields and the default delimiter.
pub open spec fn yields(
    r: CleanResult<Record>,
    outcome: Result<Map<Seq<char>, Seq<char>>, ParseError>,
) -> bool {
    match outcome {
        Ok(fields) => r matches Ok(record) && record@ == record_of(fields) && record@.wf()
            && record@.fields() == fields && record@.delimiter == default_delimiter(),
        Err(e) => r matches Err(x) && x == e,
    }
}

/// An object with an `error` field is an upstream error, whatever else it holds and
/// whatever the filter lets pass.
pub proof fn lemma_error_field_decides(
    members: Seq<(Seq<char>, Seq<char>)>,
    allowed: Seq<Seq<char>>,
)
    requires
        fields_of(members).contains_key(error_field()),
    ensures
        select_fields(members, allowed) == Err::<Map<Seq<char>, Seq<char>>, ParseError>(
            ParseError::UpstreamError,
        ),
{
}

/// A record that flattening gives has a category, which the filter lets pass, and no
/// `error` field, and its names are in order.
pub proof fn lemma_flattened_record(
    text: Seq<char>,
    allowed: Seq<Seq<char>>,
    r: CleanResult<Record>,
)
    requires
        yields(r, flatten_outcome(text, allowed)),
        r is Ok,
    ensures
        r.unwrap()@.wf(),
        r.unwrap()@.category().is_some(),
        admitted(lowercase(r.unwrap()@.category().unwrap()), allowed),
        !r.unwrap()@.fields().contains_key(error_field()),
        json_members(text) matches Some(Some(members)) && r.unwrap()@.fields() == fields_of(
            members,
        ),
{
}

/// Flattening is a function of the line and of the set of names in the filter: two
/// results for one line, under filters that hold the same names, are the same error, or
/// records with the same names, the same values and the same delimiter.
pub proof fn lemma_flatten_deterministic(
    text: Seq<char>,
    allowed: Seq<Seq<char>>,
    allowed_again: Seq<Seq<char>>,
    first: CleanResult<Record>,
    second: CleanResult<Record>,
)
    requires
        allowed.to_set() == allowed_again.to_set(),
        yields(first, flatten_outcome(text, allowed)),
        yields(second, flatten_outcome(text, allowed_again)),
    ensures
        match (first, second) {
            (Ok(a), Ok(b)) => a@ == b@,
            (Err(a), Err(b)) => a == b,
            _ => false,
        },
{
    assert forall|name: Seq<char>| allowed.contains(name) == allowed_again.contains(name) by {
        assert(allowed.to_set().contains(name) == allowed.contains(name));
        assert(allowed_again.to_set().contains(name) == allowed_again.contains(name));
    }
    if allowed.len() > 0 {
        assert(allowed.contains(allowed[0]));
    }
    if allowed_again.len() > 0 {
        assert(allowed_again.contains(allowed_again[0]));
    }
    assert(flatten_outcome(text, allowed) == flatten_outcome(text, allowed_again));
}

/// Whether a category, given in lower case, passes the filter.
pub fn category_allowed(lowered: &str, filter_set: &Vec<String>) -> (r: bool)
    ensures
        r == admitted(lowered@, texts(filter_set@)),
{
    if filter_set.len() == 0 {
        return true;
    }
    let mut i: usize = 0;
    while i < filter_set.len()
        invariant
            i <= filter_set@.len(),
            forall|j: int| 0 <= j < i ==> #[trigger] texts(filter_set@)[j] != lowered@,
        decreases filter_set@.len() - i,
    {
        if same_name(filter_set[i].as_str(), lowered) {
            assert(texts(filter_set@)[i as int] == lowered@);
            return true;
        }
        i += 1;
    }
    false
}

/// Makes the record of an object's members, unless the object reports an upstream error,
/// has no category, or has a category that the filter does not let pass.
pub fn flatten_members(members: Vec<(String, String)>, filter_set: &Vec<String>) -> (r:
    CleanResult<Record>)
    ensures
        yields(r, select_fields(pair_texts(members@), texts(filter_set@))),
{
    let record = Record::from(members);
    if record.get(ERROR_FIELD).is_some() {
        return Err(ParseError::UpstreamError);
    }
    match record.get_type() {
        Err(_) => Err(ParseError::FilteredOut),
        Ok(category) => {
            let lowered = to_lowercase(category.as_str());
            if category_allowed(lowered.as_str(), filter_set) {
                Ok(record)
            } else {
                Err(ParseError::FilteredOut)
            }
        },
    }
}

/// Flattens one line: the text of a JSON object becomes a record that maps each of the
/// object's members to the text of its value.
pub fn flatten_json(nldjson: &str, filter_set: &Vec<String>) -> (r: CleanResult<Record>)
    ensures
        yields(r, flatten_outcome(nldjson@, texts(filter_set@))),
{
    if !digit_runs_fit(nldjson) {
        return Err(ParseError::InvalidInput);
    }
    match parse_members(nldjson) {
        Err(e) => Err(ParseError::from(e)),
        Ok(None) => Err(ParseError::InvalidInput),
        Ok(Some(members)) => flatten_members(members, filter_set),
    }
}

} // verus!
