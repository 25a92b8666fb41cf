//! The listing of a directory as bytes for the far side of the interface.

use vstd::prelude::*;
use vstd::string::*;
use vstd::utf8::*;
use crate::common::metadata::Metadata;

verus! {

/// The moment `seconds` after the Unix epoch, written out in UTC as the
/// `chrono` crate writes a date and time, or `None` where `chrono` has no
/// date for that moment.
pub uninterp spec fn utc_text(seconds: i64) -> Option<Seq<char>>;

/// Makes the date with `DateTime::from_timestamp`, with no nanoseconds, and
/// writes it out with `to_string`. The text depends on the number alone: no
/// clock and no time zone of the machine come into it.
#[verifier::external_body]
fn format_utc(seconds: i64) -> (text: Option<String>)
    ensures
        text matches Some(t) ==> utc_text(seconds) == Some(t@),
        text is None ==> utc_text(seconds) is None,
{
    Some(chrono::DateTime::<chrono::Utc>::from_timestamp(seconds, 0)?.to_string())
}

/// The row for one entry: its name, when it was made and when it was last
/// changed, with `???` between them and `!!!` at the end. There is no row for
/// an entry of which one of the times is missing or has no date.
pub open spec fn ls_row(name: Seq<char>, metadata: Metadata) -> Option<Seq<char>> {
    match (metadata.created, metadata.modified) {
        (Some(created), Some(modified)) => match (utc_text(created), utc_text(modified)) {
            (Some(made), Some(changed)) => Some(
                name + "???"@ + made + "???"@ + changed + "!!!"@,
            ),
            _ => None,
        },
        _ => None,
    }
}

/// The bytes of a row, if there is one.
pub open spec fn ls_row_bytes(name: Seq<char>, metadata: Metadata) -> Seq<u8> {
    match ls_row(name, metadata) {
        Some(row) => encode_utf8(row),
        None => Seq::empty(),
    }
}

/// The listing: the rows of the entries one after another.
pub open spec fn ls_output(entries: Seq<(String, Metadata)>) -> Seq<u8>
    decreases entries.len(),
{
    if entries.len() == 0 {
        Seq::empty()
    } else {
        ls_output(entries.drop_last()) + ls_row_bytes(entries.last().0@, entries.last().1)
    }
}

/// The row for one entry, if there is one.
fn row_for(name: &String, metadata: &Metadata) -> (row: Option<String>)
    ensures
        match row {
            Some(r) => ls_row(name@, *metadata) == Some(r@),
            None => ls_row(name@, *metadata) is None,
        },
{
    let created = match metadata.get_created() {
        Some(created) => created,
        None => {
            return None;
        },
    };
    let modified = match metadata.get_modified() {
        Some(modified) => modified,
        None => {
            return None;
        },
    };
    let made = match format_utc(created) {
        Some(made) => made,
        None => {
            return None;
        },
    };
    let changed = match format_utc(modified) {
        Some(changed) => changed,
        None => {
            return None;
        },
    };
    let mut row = name.clone();
    row.append("???");
    row.append(made.as_str());
    row.append("???");
    row.append(changed.as_str());
    row.append("!!!");
    Some(row)
}

/// Writes a listing out as bytes: for each entry a row with its name, when
/// it was made and when it was last changed, with `???` between them and
/// `!!!` at the end. An entry of which a time is missing has no row.
pub fn prepare_ls_output(ls_result: Vec<(String, Metadata)>) -> (output: Result<Vec<u8>, String>)
    ensures
        output matches Ok(bytes) && bytes@ == ls_output(ls_result@),
{
    let mut result: Vec<u8> = Vec::new();
    let mut i: usize = 0;
    while i < ls_result.len()
        invariant
            i <= ls_result@.len(),
            result@ == ls_output(ls_result@.take(i as int)),
        decreases ls_result@.len() - i,
    {
        proof {
            assert(ls_result@.take(i + 1).drop_last() =~= ls_result@.take(i as int));
        }
        match row_for(&ls_result[i].0, &ls_result[i].1) {
            Some(row) => {
                let mut row_bytes = row.as_str().as_bytes_vec();
                result.append(&mut row_bytes);
            },
            None => {},
        }
        i = i + 1;
    }
    proof {
        assert(ls_result@.take(i as int) =~= ls_result@);
    }
    Ok(result)
}

} // verus!
