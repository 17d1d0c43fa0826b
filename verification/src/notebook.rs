//! Reading the source of one graded cell out of a Jupyter notebook.
use vstd::prelude::*;
use crate::chars::str_equal;

verus! {

/// A JSON document, holding what the notebook logic reads of it.
pub enum JsonValue {
    Null,
    Bool(bool),
    /// A number, kept as the text by which it is written out.
    Number(String),
    String(String),
    Array(Vec<JsonValue>),
    /// An object's members, each key once.
    Object(Vec<(String, JsonValue)>),
}

/// Why no cell source could be read from a notebook.
pub enum NotebookError {
    /// The text is not JSON; the parser's message.
    InvalidJson(String),
    /// The document has no `cells` array.
    MissingCells,
    /// No cell carries the requested `nbgrader.grade_id`.
    NoMatchingCell,
    /// The matching cell has no `source` member.
    MissingSource,
    /// The matching cell's `source` array holds something other than a string.
    NonStringSourceEntry,
    /// The matching cell's `source` is neither a string nor an array.
    UnsupportedSourceType,
}

/// The member named `key` among the entries, the first one if several.
pub open spec fn lookup_member(entries: Seq<(String, JsonValue)>, key: Seq<char>) -> Option<JsonValue>
    decreases entries.len(),
{
    if entries.len() == 0 {
        None
    } else if entries[0].0@ == key {
        Some(entries[0].1)
    } else {
        lookup_member(entries.drop_first(), key)
    }
}

/// The member named `key` of `v`, if `v` is an object that has one.
pub open spec fn member(v: JsonValue, key: Seq<char>) -> Option<JsonValue> {
    match v {
        JsonValue::Object(entries) => lookup_member(entries@, key),
        _ => None,
    }
}

/// The cell's `metadata.nbgrader.grade_id` is the string `cell_id`.
pub open spec fn has_grade_id(cell: JsonValue, cell_id: Seq<char>) -> bool {
    match member(cell, "metadata"@) {
        Some(metadata) => match member(metadata, "nbgrader"@) {
            Some(nbgrader) => match member(nbgrader, "grade_id"@) {
                Some(JsonValue::String(g)) => g@ == cell_id,
                _ => false,
            },
            None => false,
        },
        None => false,
    }
}

/// The lines of a source array joined, or the error of a non-string line.
pub open spec fn joined_lines(lines: Seq<JsonValue>) -> Result<Seq<char>, NotebookError>
    decreases lines.len(),
{
    if lines.len() == 0 {
        Ok(Seq::empty())
    } else {
        match joined_lines(lines.drop_last()) {
            Err(e) => Err(e),
            Ok(prefix) => match lines.last() {
                JsonValue::String(s) => Ok(prefix + s@),
                _ => Err(NotebookError::NonStringSourceEntry),
            },
        }
    }
}

/// The text of a cell's `source` member: a string as it is, an array of
/// strings joined without separator.
pub open spec fn source_text(source: Option<JsonValue>) -> Result<Seq<char>, NotebookError> {
    match source {
        None => Err(NotebookError::MissingSource),
        Some(JsonValue::String(s)) => Ok(s@),
        Some(JsonValue::Array(lines)) => joined_lines(lines@),
        Some(_) => Err(NotebookError::UnsupportedSourceType),
    }
}

/// The source of the first of `cells` whose grade id is `cell_id`.
pub open spec fn first_matching_source(cells: Seq<JsonValue>, cell_id: Seq<char>) -> Result<Seq<char>, NotebookError>
    decreases cells.len(),
{
    if cells.len() == 0 {
        Err(NotebookError::NoMatchingCell)
    } else if has_grade_id(cells[0], cell_id) {
        source_text(member(cells[0], "source"@))
    } else {
        first_matching_source(cells.drop_first(), cell_id)
    }
}

/// The source of the cell with grade id `cell_id` in the notebook document.
pub open spec fn cell_source_spec(notebook: JsonValue, cell_id: Seq<char>) -> Result<Seq<char>, NotebookError> {
    match member(notebook, "cells"@) {
        Some(JsonValue::Array(cells)) => first_matching_source(cells@, cell_id),
        _ => Err(NotebookError::MissingCells),
    }
}

/// The result agrees with the specified text or error.
pub open spec fn agrees(res: Result<String, NotebookError>, expected: Result<Seq<char>, NotebookError>) -> bool {
    match res {
        Ok(s) => expected == Ok::<Seq<char>, NotebookError>(s@),
        Err(e) => expected == Err::<Seq<char>, NotebookError>(e),
    }
}

/// The member named `key` of `v`, if `v` is an object that has one.
pub fn get_member<'a>(v: &'a JsonValue, key: &str) -> (res: Option<&'a JsonValue>)
    ensures
        match res {
            Some(m) => member(*v, key@) == Some(*m),
            None => member(*v, key@) is None,
        },
{
    match v {
        JsonValue::Object(entries) => {
            let mut i: usize = 0;
            assert(entries@.skip(0) =~= entries@);
            while i < entries.len()
                invariant
                    i <= entries@.len(),
                    member(*v, key@) == lookup_member(entries@, key@),
                    lookup_member(entries@, key@) == lookup_member(entries@.skip(i as int), key@),
                decreases entries.len() - i,
            {
                assert(entries@.skip(i as int).drop_first() =~= entries@.skip(i + 1));
                assert(entries@.skip(i as int)[0] == entries@[i as int]);
                if str_equal(entries[i].0.as_str(), key) {
                    assert(entries@[i as int].0@ == key@);
                    assert(lookup_member(entries@.skip(i as int), key@) == Some(entries@[i as int].1));
                    return Some(&entries[i].1);
                }
                i += 1;
            }
            None
        },
        _ => None,
    }
}

/// The text of a cell's `source` member: a string as it is, an array of
/// strings joined without separator; an error for a missing source, a
/// non-string line or a source of any other type.
pub fn cell_source_to_string(source: Option<&JsonValue>) -> (res: Result<String, NotebookError>)
    ensures
        agrees(
            res,
            source_text(
                match source {
                    Some(v) => Some(*v),
                    None => None,
                },
            ),
        ),
{
    match source {
        None => Err(NotebookError::MissingSource),
        Some(JsonValue::String(s)) => Ok(s.clone()),
        Some(JsonValue::Array(lines)) => {
            let mut out = String::new();
            let mut i: usize = 0;
            while i < lines.len()
                invariant
                    i <= lines@.len(),
                    source_text(
                        match source {
                            Some(v) => Some(*v),
                            None => None,
                        },
                    ) == joined_lines(lines@),
                    joined_lines(lines@.take(i as int)) == Ok::<Seq<char>, NotebookError>(out@),
                decreases lines.len() - i,
            {
                assert(lines@.take(i + 1).drop_last() =~= lines@.take(i as int));
                match &lines[i] {
                    JsonValue::String(text) => {
                        out.append(text.as_str());
                    },
                    _ => {
                        proof {
                            assert(lines@.take(i + 1).last() == lines@[i as int]);
                            assert(!(lines@[i as int] is String));
                            assert(joined_lines(lines@.take(i + 1)) == Err::<Seq<char>, NotebookError>(NotebookError::NonStringSourceEntry));
                            lemma_joined_lines_error_stays(lines@, i as int + 1);
                        }
                        return Err(NotebookError::NonStringSourceEntry);
                    },
                }
                i += 1;
            }
            assert(lines@.take(lines.len() as int) =~= lines@);
            Ok(out)
        },
        Some(_) => Err(NotebookError::UnsupportedSourceType),
    }
}

/// Once a prefix of the lines fails to join, the whole list does.
proof fn lemma_joined_lines_error_stays(lines: Seq<JsonValue>, m: int)
    requires
        0 <= m <= lines.len(),
        joined_lines(lines.take(m)) == Err::<Seq<char>, NotebookError>(NotebookError::NonStringSourceEntry),
    ensures
        joined_lines(lines) == Err::<Seq<char>, NotebookError>(NotebookError::NonStringSourceEntry),
    decreases lines.len() - m,
{
    if m == lines.len() {
        assert(lines.take(m) =~= lines);
    } else {
        assert(lines.take(m + 1).drop_last() =~= lines.take(m));
        lemma_joined_lines_error_stays(lines, m + 1);
    }
}

/// The source of the first cell of the notebook document whose
/// `metadata.nbgrader.grade_id` is the string `cell_id`.
pub fn cell_source_from_notebook(notebook: &JsonValue, cell_id: &str) -> (res: Result<String, NotebookError>)
    ensures
        agrees(res, cell_source_spec(*notebook, cell_id@)),
{
    let cells = match get_member(notebook, "cells") {
        Some(JsonValue::Array(cells)) => cells,
        _ => {
            return Err(NotebookError::MissingCells);
        },
    };
    let mut i: usize = 0;
    assert(cells@.skip(0) =~= cells@);
    while i < cells.len()
        invariant
            i <= cells@.len(),
            cell_source_spec(*notebook, cell_id@) == first_matching_source(cells@.skip(i as int), cell_id@),
        decreases cells.len() - i,
    {
        let cell = &cells[i];
        assert(cells@.skip(i as int)[0] == *cell);
        assert(cells@.skip(i as int).drop_first() =~= cells@.skip(i + 1));
        let grade_id_matches = match get_member(cell, "metadata") {
            Some(metadata) => match get_member(metadata, "nbgrader") {
                Some(nbgrader) => match get_member(nbgrader, "grade_id") {
                    Some(JsonValue::String(g)) => str_equal(g.as_str(), cell_id),
                    _ => false,
                },
                None => false,
            },
            None => false,
        };
        if grade_id_matches {
            return cell_source_to_string(get_member(cell, "source"));
        }
        i += 1;
    }
    Err(NotebookError::NoMatchingCell)
}

/// The JSON value at `metadata.nbgrader.grade_id` of a cell, if there is one.
pub open spec fn grade_id_value(cell: JsonValue) -> Option<JsonValue> {
    match member(cell, "metadata"@) {
        Some(metadata) => match member(metadata, "nbgrader"@) {
            Some(nbgrader) => member(nbgrader, "grade_id"@),
            None => None,
        },
        None => None,
    }
}

proof fn lemma_first_matching_exact(cells: Seq<JsonValue>, cell_id: Seq<char>, k: int)
    requires
        0 <= k < cells.len(),
        grade_id_value(cells[k]) matches Some(JsonValue::String(g)) && g@ == cell_id,
        forall|m: int|
            0 <= m < k ==> !(grade_id_value(#[trigger] cells[m]) matches Some(JsonValue::String(g))
                && g@ == cell_id),
    ensures
        first_matching_source(cells, cell_id) == source_text(member(cells[k], "source"@)),
    decreases k,
{
    if k > 0 {
        let rest = cells.drop_first();
        assert(!(grade_id_value(cells[0]) matches Some(JsonValue::String(g)) && g@ == cell_id));
        assert forall|m: int|
            0 <= m < k - 1 implies !(grade_id_value(#[trigger] rest[m]) matches Some(
                JsonValue::String(g),
            ) && g@ == cell_id) by {
            assert(rest[m] == cells[m + 1]);
        }
        assert(rest[k - 1] == cells[k]);
        lemma_first_matching_exact(rest, cell_id, k - 1);
    }
}

proof fn lemma_first_matching_none(cells: Seq<JsonValue>, cell_id: Seq<char>)
    requires
        forall|m: int|
            0 <= m < cells.len() ==> !(grade_id_value(#[trigger] cells[m]) matches Some(
                JsonValue::String(g),
            ) && g@ == cell_id),
    ensures
        first_matching_source(cells, cell_id) == Err::<Seq<char>, NotebookError>(NotebookError::NoMatchingCell),
    decreases cells.len(),
{
    if cells.len() > 0 {
        let rest = cells.drop_first();
        assert(!(grade_id_value(cells[0]) matches Some(JsonValue::String(g)) && g@ == cell_id));
        assert forall|m: int|
            0 <= m < rest.len() implies !(grade_id_value(#[trigger] rest[m]) matches Some(
                JsonValue::String(g),
            ) && g@ == cell_id) by {
            assert(rest[m] == cells[m + 1]);
        }
        lemma_first_matching_none(rest, cell_id);
    }
}

/// The cell chosen is the first whose grade id is exactly the requested id:
/// when cell `k` has the grade id `cell_id` (as a string equal to it, not
/// merely sharing a prefix) and no earlier cell has, the result is the text
/// of cell `k`'s source; when no cell has it, the result is
/// `NoMatchingCell`.
pub proof fn lemma_cell_chosen_by_exact_grade_id(notebook: JsonValue, cells: Vec<JsonValue>, cell_id: Seq<char>)
    requires
        member(notebook, "cells"@) == Some(JsonValue::Array(cells)),
    ensures
        forall|k: int|
            0 <= k < cells@.len() && (grade_id_value(cells@[k]) matches Some(JsonValue::String(g))
                && g@ == cell_id) && (forall|m: int|
                0 <= m < k ==> !(grade_id_value(#[trigger] cells@[m]) matches Some(
                    JsonValue::String(g),
                ) && g@ == cell_id)) ==> #[trigger] cell_source_spec(notebook, cell_id) == source_text(
                member(cells@[k], "source"@),
            ),
        (forall|m: int|
            0 <= m < cells@.len() ==> !(grade_id_value(#[trigger] cells@[m]) matches Some(
                JsonValue::String(g),
            ) && g@ == cell_id)) ==> cell_source_spec(notebook, cell_id) == Err::<
            Seq<char>,
            NotebookError,
        >(NotebookError::NoMatchingCell),
{
    assert forall|k: int|
        0 <= k < cells@.len() && (grade_id_value(cells@[k]) matches Some(JsonValue::String(g)) && g@
            == cell_id) && (forall|m: int|
            0 <= m < k ==> !(grade_id_value(#[trigger] cells@[m]) matches Some(JsonValue::String(g))
                && g@ == cell_id)) implies #[trigger] cell_source_spec(notebook, cell_id)
        == source_text(member(cells@[k], "source"@)) by {
        lemma_first_matching_exact(cells@, cell_id, k);
    }
    if forall|m: int|
        0 <= m < cells@.len() ==> !(grade_id_value(#[trigger] cells@[m]) matches Some(
            JsonValue::String(g),
        ) && g@ == cell_id) {
        lemma_first_matching_none(cells@, cell_id);
    }
}

#[verifier::external_type_specification]
#[verifier::external_body]
pub struct ExSerdeJsonValue(serde_json::Value);

/// What serde_json makes of a text: the document it reads, or the message of
/// the error it reports.
pub uninterp spec fn serde_json_reading(text: Seq<char>) -> Result<JsonValue, Seq<char>>;

/// Calls `serde_json::from_str` to read `text` as a `serde_json::Value`, and
/// hands the document back as a `JsonValue` (see `json_from_serde`) or the
/// error as its message. The contract names the outcome and claims only that
/// it depends on the text alone.
#[verifier::external_body]
fn parse_json(text: &str) -> (res: Result<JsonValue, String>)
    ensures
        match res {
            Ok(doc) => serde_json_reading(text@) == Ok::<JsonValue, Seq<char>>(doc),
            Err(msg) => serde_json_reading(text@) == Err::<JsonValue, Seq<char>>(msg@),
        },
{
    match serde_json::from_str::<serde_json::Value>(text) {
        Ok(value) => Ok(json_from_serde(value)),
        Err(err) => Err(err.to_string()),
    }
}

/// The one-for-one conversion of a `serde_json::Value` into a `JsonValue`
/// that `parse_json` applies: each variant to its namesake, a number to the
/// text by which serde_json writes it, an object's members in the order in
/// which serde_json's map yields them. Nothing is stated of it.
#[verifier::external_body]
fn json_from_serde(value: serde_json::Value) -> JsonValue {
    match value {
        serde_json::Value::Null => JsonValue::Null,
        serde_json::Value::Bool(b) => JsonValue::Bool(b),
        serde_json::Value::Number(n) => JsonValue::Number(n.to_string()),
        serde_json::Value::String(s) => JsonValue::String(s),
        serde_json::Value::Array(items) => JsonValue::Array(items.into_iter().map(json_from_serde).collect()),
        serde_json::Value::Object(map) => JsonValue::Object(
            map.into_iter().map(|(k, v)| (k, json_from_serde(v))).collect(),
        ),
    }
}

/// Reads a notebook's text and returns the source of the first cell whose
/// `metadata.nbgrader.grade_id` is `cell_id`; text that is not JSON gives
/// `InvalidJson` with the parser's message.
pub fn extract_cell_source(notebook_text: &str, cell_id: &str) -> (res: Result<String, NotebookError>)
    ensures
        match serde_json_reading(notebook_text@) {
            Ok(doc) => agrees(res, cell_source_spec(doc, cell_id@)),
            Err(msg) => res matches Err(NotebookError::InvalidJson(m)) && m@ == msg,
        },
{
    match parse_json(notebook_text) {
        Ok(doc) => cell_source_from_notebook(&doc, cell_id),
        Err(msg) => Err(NotebookError::InvalidJson(msg)),
    }
}

/// The message that reports a notebook error for the cell `cell_id`.
pub open spec fn error_message(e: NotebookError, cell_id: Seq<char>) -> Seq<char> {
    match e {
        NotebookError::InvalidJson(m) => "invalid notebook JSON: "@ + m@,
        NotebookError::MissingCells => "notebook missing 'cells' array"@,
        NotebookError::NoMatchingCell => "no cell found with nbgrader.grade_id='"@ + cell_id + "'"@,
        NotebookError::MissingSource => "cell is missing source field"@,
        NotebookError::NonStringSourceEntry => "source array contained a non-string entry"@,
        NotebookError::UnsupportedSourceType => "cell source has unsupported JSON type"@,
    }
}

impl NotebookError {
    /// The message that reports this error for the cell `cell_id`.
    pub fn message(&self, cell_id: &str) -> (m: String)
        ensures
            m@ == error_message(*self, cell_id@),
    {
        match self {
            NotebookError::InvalidJson(msg) => {
                let mut m = "invalid notebook JSON: ".to_owned();
                m.append(msg.as_str());
                m
            },
            NotebookError::MissingCells => "notebook missing 'cells' array".to_owned(),
            NotebookError::NoMatchingCell => {
                let mut m = "no cell found with nbgrader.grade_id='".to_owned();
                m.append(cell_id);
                m.append("'");
                m
            },
            NotebookError::MissingSource => "cell is missing source field".to_owned(),
            NotebookError::NonStringSourceEntry => "source array contained a non-string entry".to_owned(),
            NotebookError::UnsupportedSourceType => "cell source has unsupported JSON type".to_owned(),
        }
    }
}

} // verus!
