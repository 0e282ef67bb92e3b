//! Choosing the archive to evict from a remote listing: the oldest one, by
//! the date at the front of its name, once the listing is long enough.

use crate::date::{
    lemma_epoch_day_orders_dates, parse_date_prefix, read_date_prefix, Date, DateError,
    SECONDS_PER_DAY,
};
use crate::text::{lines, split_lines, texts};
use vstd::prelude::*;

verus! {

/// A listing with fewer names than this is left alone.
pub const EVICTION_FLOOR: usize = 6;

/// The first name of a listing whose front is not a date, and why.
#[derive(Clone, Copy, Debug, PartialEq, Eq, Structural)]
pub struct ListingError {
    /// Place of the name among the names of the listing, counted from zero.
    pub entry: usize,
    /// What is wrong with the front of that name.
    pub reason: DateError,
}

/// A line of a listing counts as a name when it is not empty.
pub open spec fn is_name() -> spec_fn(Seq<char>) -> bool {
    |line: Seq<char>| line.len() > 0
}

/// The names in a listing: its lines without the empty ones, in order.
pub open spec fn names_in(listing: Seq<Seq<char>>) -> Seq<Seq<char>> {
    listing.filter(is_name())
}

/// Every name starts with a date.
pub open spec fn all_dated(names: Seq<Seq<char>>) -> bool {
    forall|k: int| 0 <= k < names.len() ==> (#[trigger] read_date_prefix(names[k])) is Ok
}

/// `k` is the place of the first name that does not start with a date.
pub open spec fn is_first_undated(names: Seq<Seq<char>>, k: int) -> bool {
    &&& 0 <= k < names.len()
    &&& read_date_prefix(names[k]) is Err
    &&& forall|j: int| 0 <= j < k ==> (#[trigger] read_date_prefix(names[j])) is Ok
}

/// The date at the front of a name that has one.
pub open spec fn date_of(name: Seq<char>) -> Date {
    read_date_prefix(name)->Ok_0
}

/// `i` is the place of the oldest name: no name carries an earlier date, and
/// every name before it carries a later one.
pub open spec fn is_oldest(names: Seq<Seq<char>>, i: int) -> bool {
    &&& 0 <= i < names.len()
    &&& forall|j: int|
        0 <= j < names.len() ==> !(#[trigger] date_of(names[j])).is_before(date_of(names[i]))
    &&& forall|j: int| 0 <= j < i ==> date_of(names[i]).is_before(#[trigger] date_of(names[j]))
}

/// `name` is the oldest name of the listing.
pub open spec fn is_oldest_name(names: Seq<Seq<char>>, name: Seq<char>) -> bool {
    exists|i: int| is_oldest(names, i) && names[i] == name
}

/// `error` tells of the first name that does not start with a date, and
/// gives the reason that reading that name gives.
pub open spec fn is_first_failure(names: Seq<Seq<char>>, error: ListingError) -> bool {
    &&& is_first_undated(names, error.entry as int)
    &&& read_date_prefix(names[error.entry as int]) == Err::<Date, DateError>(error.reason)
}

/// Picks the name to evict from a listing.
///
/// Empty strings are no names and are passed over. With fewer than
/// `EVICTION_FLOOR` names nothing is evicted, whatever the names look like.
/// Otherwise every name must start with a date: the first one that does not
/// is reported, and no name is picked. Of well-dated names the one with the
/// earliest date is picked, the first of them where several share that date.
pub fn select_oldest(listing: &Vec<String>) -> (picked: Result<Option<String>, ListingError>)
    ensures
        ({
            let names = names_in(texts(listing@));
            &&& names.len() < EVICTION_FLOOR ==> picked is Ok && picked->Ok_0 is None
            &&& names.len() >= EVICTION_FLOOR && all_dated(names) ==> (picked matches Ok(Some(name))
                && is_oldest_name(names, name@))
            &&& names.len() >= EVICTION_FLOOR && !all_dated(names) ==> (picked matches Err(error)
                && is_first_failure(names, error))
        }),
{
    let ghost lines = texts(listing@);
    let ghost names = names_in(lines);
    // Places in `listing` of its names.
    let mut places: Vec<usize> = Vec::new();
    let mut i: usize = 0;
    while i < listing.len()
        invariant
            i <= listing.len(),
            lines == texts(listing@),
            places.len() == names_in(lines.take(i as int)).len(),
            forall|k: int|
                0 <= k < places.len() ==> (#[trigger] places[k]) < listing.len()
                    && listing[places[k] as int]@ == names_in(lines.take(i as int))[k],
        decreases listing.len() - i,
    {
        proof {
            assert(lines.take(i + 1) == lines.take(i as int).push(listing[i as int]@));
            lines.take(i as int).lemma_filter_push(listing[i as int]@, is_name());
        }
        if !listing[i].as_str().is_empty() {
            places.push(i);
        }
        i += 1;
    }
    assert(lines.take(listing.len() as int) == lines);
    if places.len() < EVICTION_FLOOR {
        return Ok(None);
    }
    let mut stamps: Vec<i64> = Vec::new();
    let mut k: usize = 0;
    while k < places.len()
        invariant
            k <= places.len() == names.len(),
            names == names_in(texts(listing@)),
            names.len() >= EVICTION_FLOOR,
            stamps.len() == k,
            forall|j: int|
                0 <= j < places.len() ==> (#[trigger] places[j]) < listing.len()
                    && listing[places[j] as int]@ == names[j],
            forall|j: int| 0 <= j < k ==> (#[trigger] read_date_prefix(names[j])) is Ok,
            forall|j: int|
                0 <= j < k ==> date_of(names[j]).is_valid() && (#[trigger] stamps[j])
                    == SECONDS_PER_DAY * date_of(names[j]).epoch_day(),
        decreases places.len() - k,
    {
        match parse_date_prefix(listing[places[k]].as_str()) {
            Ok(date) => {
                stamps.push(date.timestamp());
            },
            Err(reason) => {
                assert(is_first_undated(names, k as int));
                return Err(ListingError { entry: k, reason });
            },
        }
        k += 1;
    }
    assert(all_dated(names));
    let mut best: usize = 0;
    let mut j: usize = 1;
    while j < stamps.len()
        invariant
            best < j <= stamps.len(),
            forall|m: int| 0 <= m < j ==> stamps[best as int] <= #[trigger] stamps[m],
            forall|m: int| 0 <= m < best ==> stamps[best as int] < #[trigger] stamps[m],
        decreases stamps.len() - j,
    {
        if stamps[j] < stamps[best] {
            best = j;
        }
        j += 1;
    }
    proof {
        assert forall|m: int| 0 <= m < names.len() implies !(#[trigger] date_of(names[m])).is_before(
            date_of(names[best as int]),
        ) by {
            assert(stamps[best as int] <= stamps[m]);
            lemma_epoch_day_orders_dates(date_of(names[m]), date_of(names[best as int]));
        }
        assert forall|m: int| 0 <= m < best implies date_of(names[best as int]).is_before(
            #[trigger] date_of(names[m]),
        ) by {
            assert(stamps[best as int] < stamps[m]);
            lemma_epoch_day_orders_dates(date_of(names[best as int]), date_of(names[m]));
        }
        assert(is_oldest(names, best as int));
    }
    Ok(Some(listing[places[best]].clone()))
}

/// A listing has one oldest place only: the contract of [`select_oldest`]
/// leaves no choice.
pub proof fn lemma_oldest_unique(names: Seq<Seq<char>>, i: int, j: int)
    requires
        is_oldest(names, i),
        is_oldest(names, j),
    ensures
        i == j,
{
    if i < j {
        assert(date_of(names[j]).is_before(date_of(names[i])));
        assert(!date_of(names[j]).is_before(date_of(names[i])));
    } else if j < i {
        assert(date_of(names[i]).is_before(date_of(names[j])));
        assert(!date_of(names[i]).is_before(date_of(names[j])));
    }
}

/// Hence a listing has one oldest name only.
pub proof fn lemma_oldest_name_unique(names: Seq<Seq<char>>, first: Seq<char>, second: Seq<char>)
    requires
        is_oldest_name(names, first),
        is_oldest_name(names, second),
    ensures
        first == second,
{
    let i = choose|i: int| is_oldest(names, i) && names[i] == first;
    let j = choose|j: int| is_oldest(names, j) && names[j] == second;
    lemma_oldest_unique(names, i, j);
}

/// Picks the name to evict from a raw listing, one name per line.
///
/// The listing is cut at its line breaks and handed to [`select_oldest`]. The
/// empty string stands for "nothing to evict": no name is empty.
pub fn find_oldest_file(files_list: &str) -> (picked: Result<String, ListingError>)
    ensures
        ({
            let names = names_in(lines(files_list@));
            &&& names.len() < EVICTION_FLOOR ==> (picked matches Ok(name) && name@.len() == 0)
            &&& names.len() >= EVICTION_FLOOR && all_dated(names) ==> (picked matches Ok(name)
                && name@.len() > 0 && is_oldest_name(names, name@))
            &&& names.len() >= EVICTION_FLOOR && !all_dated(names) ==> (picked matches Err(error)
                && is_first_failure(names, error))
        }),
{
    let listing = split_lines(files_list);
    proof {
        broadcast use Seq::lemma_filter_pred;
    }
    match select_oldest(&listing) {
        Ok(Some(name)) => Ok(name),
        Ok(None) => Ok(String::new()),
        Err(e) => Err(e),
    }
}

} // verus!
