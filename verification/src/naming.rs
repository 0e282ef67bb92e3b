//! Names of new archives: the local date, a separator, the local time.

use crate::date::{
    date_token, is_first_separator, read_date_prefix, read_token, SEPARATOR, TOKEN_LEN,
};
use chrono::Local;
use vstd::prelude::*;
use vstd::string::StringExecFns;

verus! {

/// How the date at the front of a name is written, in chrono's notation.
pub const DATE_FORMAT: &'static str = "%Y-%m-%d";

/// How the time behind the separator is written, in chrono's notation.
pub const TIME_FORMAT: &'static str = "%I-%M-%S_%p";

/// The name made of a date part and a time part.
pub open spec fn archive_name(date_part: Seq<char>, time_part: Seq<char>) -> Seq<char> {
    date_part.push(SEPARATOR) + time_part
}

/// `chrono::Local::now`, and `DateTime::format` of that one instant with
/// each of the two formats, each written out with `to_string`.
///
/// Trusted: of the date part, that it holds no separator and at least as
/// many characters as a date token. chrono writes the year with four digits
/// or more, with a sign before it beyond the year 9999, the month and the
/// day with two digits each, and hyphens between them. The rest depends on
/// the clock and the time zone of the machine, so nothing more is claimed.
///
/// Trusted also: that the call returns. chrono panics where the clock of the
/// machine reads before 1970 or its time zone data yields no offset; no
/// condition on the two formats can rule that out.
#[verifier::external_body]
fn local_now_in(date_format: &str, time_format: &str) -> (parts: (String, String))
    requires
        date_format@ == DATE_FORMAT@,
        time_format@ == TIME_FORMAT@,
    ensures
        !parts.0@.contains(SEPARATOR),
        parts.0@.len() >= TOKEN_LEN,
{
    let now = Local::now();
    (now.format(date_format).to_string(), now.format(time_format).to_string())
}

/// Joins a date part and a time part into a name.
pub fn name_from_parts(date_part: &str, time_part: &str) -> (name: String)
    ensures
        name@ == archive_name(date_part@, time_part@),
{
    proof {
        reveal_strlit("_");
    }
    let mut name = date_part.to_owned();
    name.append("_");
    name.append(time_part);
    assert(name@ =~= archive_name(date_part@, time_part@));
    name
}

/// `date_part` can stand at the front of a generated name: it holds no
/// separator and is at least as long as a date token.
pub open spec fn is_date_part(date_part: Seq<char>) -> bool {
    !date_part.contains(SEPARATOR) && date_part.len() >= TOKEN_LEN
}

/// Names a new archive after the local date and time of this moment.
/// What the clock says is not known beforehand: the name is that of some
/// date part and some time part, and the date part is what stands before
/// the first separator of the name.
pub fn generate_filename() -> (name: String)
    ensures
        exists|date_part: Seq<char>, time_part: Seq<char>|
            name@ == #[trigger] archive_name(date_part, time_part) && is_date_part(date_part)
                && date_token(name@) == Some(date_part),
{
    let (date_part, time_part) = local_now_in(DATE_FORMAT, TIME_FORMAT);
    let name = name_from_parts(date_part.as_str(), time_part.as_str());
    proof {
        lemma_name_reads_back(date_part@, time_part@);
        assert(name@ == archive_name(date_part@, time_part@));
    }
    name
}

/// A name reads back as it was made: where the date part holds no
/// separator, the date token of the name is the date part, and the name
/// starts with a date exactly when the date part is one.
pub proof fn lemma_name_reads_back(date_part: Seq<char>, time_part: Seq<char>)
    requires
        !date_part.contains(SEPARATOR),
    ensures
        date_token(archive_name(date_part, time_part)) == Some(date_part),
        read_date_prefix(archive_name(date_part, time_part)) == read_token(date_part),
{
    let name = archive_name(date_part, time_part);
    let at = date_part.len() as int;
    assert forall|j: int| 0 <= j < at implies name[j] != SEPARATOR by {
        assert(name[j] == date_part[j]);
        assert(date_part.contains(date_part[j]));
    }
    assert(is_first_separator(name, at));
    let chosen = choose|i: int| is_first_separator(name, i);
    assert(chosen == at);
    assert(name.take(at) == date_part);
}

} // verus!
