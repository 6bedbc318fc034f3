//! A customer record as it stands on one line of the input.
use crate::json::{
    as_integer, as_text, document_of, integer_of, member, member_of, parse_document, text_of,
};
use crate::lines::{line_views, lines_of, split_lines};
use crate::number_text::{is_float_text, parses_as_float};
use serde_json::Value;
use vstd::prelude::*;

verus! {

/// Why a line is no customer record. Callers report all three alike, see
/// [`ParseError::message`].
#[derive(Clone, Copy, Debug, PartialEq, Eq, Structural)]
pub enum ParseError {
    /// The line is not a JSON document.
    MalformedDocument,
    /// One of the four fields is absent or has the wrong type.
    InvalidField,
    /// The latitude or the longitude is not the text of a number.
    InvalidCoordinate,
}

impl ParseError {
    /// The one message that every cause is reported with.
    pub fn message(&self) -> (r: String)
        ensures
            r@ == "Invalid JSON string"@,
    {
        "Invalid JSON string".to_owned()
    }
}

/// A record of the input: the coordinates are kept as the text that the line
/// holds, which is known to be the text of a number.
#[derive(Debug)]
pub struct CustomerData {
    pub latitude: String,
    pub longitude: String,
    pub user_id: i64,
    pub name: String,
}

/// What a record holds, with each text as a sequence of characters.
pub ghost struct CustomerDataView {
    pub latitude: Seq<char>,
    pub longitude: Seq<char>,
    pub user_id: i64,
    pub name: Seq<char>,
}

impl View for CustomerData {
    type V = CustomerDataView;

    open spec fn view(&self) -> CustomerDataView {
        CustomerDataView {
            latitude: self.latitude@,
            longitude: self.longitude@,
            user_id: self.user_id,
            name: self.name@,
        }
    }
}

impl CustomerDataView {
    /// Both coordinates are the text of a number.
    pub open spec fn wf(self) -> bool {
        is_float_text(self.latitude) && is_float_text(self.longitude)
    }
}

/// The characters of a text that may be absent.
pub open spec fn text_view(text: Option<&str>) -> Option<Seq<char>> {
    match text {
        Some(t) => Some(t@),
        None => None,
    }
}

/// The record that four fields make, each `None` where the document lacks it
/// or holds a value of another type.
pub open spec fn record_of_fields(
    latitude: Option<Seq<char>>,
    longitude: Option<Seq<char>>,
    user_id: Option<i64>,
    name: Option<Seq<char>>,
) -> Result<CustomerDataView, ParseError> {
    if latitude is None || longitude is None || user_id is None || name is None {
        Err(ParseError::InvalidField)
    } else if !is_float_text(latitude->0) || !is_float_text(longitude->0) {
        Err(ParseError::InvalidCoordinate)
    } else {
        Ok(
            CustomerDataView {
                latitude: latitude->0,
                longitude: longitude->0,
                user_id: user_id->0,
                name: name->0,
            },
        )
    }
}

/// The text under `key` in `doc`, where there is one.
pub open spec fn text_field(doc: Value, key: Seq<char>) -> Option<Seq<char>> {
    match member_of(doc, key) {
        Some(value) => text_of(value),
        None => None,
    }
}

/// The integer under `key` in `doc`, where there is one.
pub open spec fn integer_field(doc: Value, key: Seq<char>) -> Option<i64> {
    match member_of(doc, key) {
        Some(value) => integer_of(value),
        None => None,
    }
}

/// The record that one line holds.
pub open spec fn record_of(line: Seq<char>) -> Result<CustomerDataView, ParseError> {
    match document_of(line) {
        None => Err(ParseError::MalformedDocument),
        Some(doc) => record_of_fields(
            text_field(doc, "latitude"@),
            text_field(doc, "longitude"@),
            integer_field(doc, "user_id"@),
            text_field(doc, "name"@),
        ),
    }
}

/// The records that `lines` hold, or the error of the first line that holds
/// none.
pub open spec fn records_of_lines(lines: Seq<Seq<char>>) -> Result<
    Seq<CustomerDataView>,
    ParseError,
>
    decreases lines.len(),
{
    if lines.len() == 0 {
        Ok(Seq::empty())
    } else {
        match records_of_lines(lines.drop_last()) {
            Err(e) => Err(e),
            Ok(records) => match record_of(lines.last()) {
                Err(e) => Err(e),
                Ok(record) => Ok(records.push(record)),
            },
        }
    }
}

/// The records of a text, one to each of its lines.
pub open spec fn records_of(text: Seq<char>) -> Result<Seq<CustomerDataView>, ParseError> {
    records_of_lines(lines_of(text))
}

/// What the records of a list hold, one after the other.
pub open spec fn data_views(records: Seq<CustomerData>) -> Seq<CustomerDataView> {
    Seq::new(records.len(), |i: int| records[i]@)
}

/// What a call that decodes one record returned, over views.
pub open spec fn record_outcome(r: Result<CustomerData, ParseError>) -> Result<
    CustomerDataView,
    ParseError,
> {
    match r {
        Ok(data) => Ok(data@),
        Err(e) => Err(e),
    }
}

/// What a call that decodes a list of records returned, over views.
pub open spec fn records_outcome(r: Result<Vec<CustomerData>, ParseError>) -> Result<
    Seq<CustomerDataView>,
    ParseError,
> {
    match r {
        Ok(records) => Ok(data_views(records@)),
        Err(e) => Err(e),
    }
}

/// Once a line has failed, the lines after it change nothing.
pub proof fn lemma_failure_is_final(lines: Seq<Seq<char>>, k: int)
    requires
        0 <= k <= lines.len(),
        records_of_lines(lines.take(k)) is Err,
    ensures
        records_of_lines(lines) == records_of_lines(lines.take(k)),
    decreases lines.len(),
{
    if k == lines.len() {
        assert(lines.take(k) =~= lines);
    } else {
        assert(lines.drop_last().take(k) =~= lines.take(k));
        lemma_failure_is_final(lines.drop_last(), k);
    }
}

/// A list of lines decodes exactly when each line does, and then to one
/// record for each line, in the order of the lines.
pub proof fn lemma_records_line_by_line(lines: Seq<Seq<char>>)
    ensures
        records_of_lines(lines) is Ok <==> forall|i: int|
            0 <= i < lines.len() ==> (#[trigger] record_of(lines[i])) is Ok,
        records_of_lines(lines) matches Ok(records) ==> {
            &&& records.len() == lines.len()
            &&& forall|i: int|
                0 <= i < lines.len() ==> record_of(lines[i]) == Ok::<_, ParseError>(
                    #[trigger] records[i],
                )
            &&& forall|i: int| 0 <= i < records.len() ==> (#[trigger] records[i]).wf()
        },
    decreases lines.len(),
{
    if lines.len() > 0 {
        let front = lines.drop_last();
        lemma_records_line_by_line(front);
        assert(forall|i: int| 0 <= i < front.len() ==> front[i] == lines[i]);
        if records_of_lines(front) is Ok {
            if record_of(lines.last()) is Err {
                assert(record_of(lines[lines.len() - 1]) is Err);
            }
        } else {
            let i = choose|i: int| 0 <= i < front.len() && !(#[trigger] record_of(front[i]) is Ok);
            assert(record_of(lines[i]) is Err);
        }
    }
}

/// One line that is no record makes the whole text fail, whatever the other
/// lines hold.
pub proof fn lemma_one_bad_line_fails_all(text: Seq<char>, i: int)
    requires
        0 <= i < lines_of(text).len(),
        record_of(lines_of(text)[i]) is Err,
    ensures
        records_of(text) is Err,
{
    lemma_records_line_by_line(lines_of(text));
}

/// A record holds what the document holds under the four names, each as it
/// is written there: the coordinates are the document's own texts, and both
/// are the text of a number.
pub proof fn lemma_record_keeps_the_fields(line: Seq<char>)
    ensures
        record_of(line) matches Ok(record) ==> {
            &&& document_of(line) matches Some(doc)
            &&& text_field(doc, "latitude"@) == Some(record.latitude)
            &&& text_field(doc, "longitude"@) == Some(record.longitude)
            &&& integer_field(doc, "user_id"@) == Some(record.user_id)
            &&& text_field(doc, "name"@) == Some(record.name)
            &&& record.wf()
        },
{
}

impl CustomerData {
    /// Makes a record of the four fields of a document. A field is `None`
    /// where the document has no such field or one of another type.
    pub fn from_fields(
        latitude: Option<&str>,
        longitude: Option<&str>,
        user_id: Option<i64>,
        name: Option<&str>,
    ) -> (r: Result<CustomerData, ParseError>)
        ensures
            record_outcome(r) == record_of_fields(
                text_view(latitude),
                text_view(longitude),
                user_id,
                text_view(name),
            ),
            r matches Ok(data) ==> data@.wf(),
    {
        match (latitude, longitude, user_id, name) {
            (Some(lat), Some(lon), Some(id), Some(n)) => {
                if parses_as_float(lat) && parses_as_float(lon) {
                    Ok(
                        CustomerData {
                            latitude: lat.to_owned(),
                            longitude: lon.to_owned(),
                            user_id: id,
                            name: n.to_owned(),
                        },
                    )
                } else {
                    Err(ParseError::InvalidCoordinate)
                }
            },
            _ => Err(ParseError::InvalidField),
        }
    }

    /// Decodes one line: a JSON object with the texts `latitude`, `longitude`
    /// and `name` and the integer `user_id`.
    pub fn from_json(line: &str) -> (r: Result<CustomerData, ParseError>)
        ensures
            record_outcome(r) == record_of(line@),
            r matches Ok(data) ==> data@.wf(),
    {
        match parse_document(line) {
            Err(_) => Err(ParseError::MalformedDocument),
            Ok(doc) => {
                let latitude = text_in(&doc, "latitude");
                let longitude = text_in(&doc, "longitude");
                let user_id = integer_in(&doc, "user_id");
                let name = text_in(&doc, "name");
                CustomerData::from_fields(latitude, longitude, user_id, name)
            },
        }
    }

    /// Decodes every line of `text`, and fails with the error of the first
    /// line that is no record.
    pub fn list_from_json(text: &str) -> (r: Result<Vec<CustomerData>, ParseError>)
        ensures
            records_outcome(r) == records_of(text@),
            r matches Ok(records) ==> records@.len() == lines_of(text@).len(),
    {
        let lines = split_lines(text);
        let mut records: Vec<CustomerData> = Vec::new();
        let mut at: usize = 0;
        proof {
            assert(line_views(lines@).take(0) =~= Seq::empty());
            assert(data_views(records@) =~= Seq::empty());
        }
        while at < lines.len()
            invariant
                at <= lines.len(),
                line_views(lines@) == lines_of(text@),
                records@.len() == at,
                records_of_lines(line_views(lines@).take(at as int)) == Ok::<_, ParseError>(
                    data_views(records@),
                ),
            decreases lines.len() - at,
        {
            let ghost before = data_views(records@);
            proof {
                let upto = line_views(lines@).take(at + 1);
                assert(upto.drop_last() =~= line_views(lines@).take(at as int));
                assert(upto.last() == lines@[at as int]@);
            }
            match CustomerData::from_json(lines[at]) {
                Ok(data) => {
                    records.push(data);
                    proof {
                        assert(data_views(records@) =~= before.push(data@));
                    }
                },
                Err(e) => {
                    proof {
                        lemma_failure_is_final(line_views(lines@), at + 1);
                    }
                    return Err(e);
                },
            }
            at = at + 1;
        }
        proof {
            assert(line_views(lines@).take(at as int) =~= line_views(lines@));
        }
        Ok(records)
    }
}

fn text_in<'a>(doc: &'a Value, key: &str) -> (r: Option<&'a str>)
    ensures
        text_view(r) == text_field(*doc, key@),
{
    match member(doc, key) {
        Some(value) => as_text(value),
        None => None,
    }
}

fn integer_in(doc: &Value, key: &str) -> (r: Option<i64>)
    ensures
        r == integer_field(*doc, key@),
{
    match member(doc, key) {
        Some(value) => as_integer(value),
        None => None,
    }
}

} // verus!
