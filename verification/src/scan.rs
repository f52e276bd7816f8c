//! Existing day directories of a month, and which of them a new photo joins.
use vstd::prelude::*;
use crate::calendar::{date_le, date_less, date_lt, lemma_date_order, Date};

verus! {

/// A day directory that already holds photos: the days of its photos, each
/// once, and the first and last of them.
pub struct ExistingDir {
    path: String,
    min_date: Date,
    max_date: Date,
    dates: Vec<Date>,
}

impl ExistingDir {
    #[verifier::type_invariant]
    spec fn well_formed(self) -> bool {
        &&& self.dates@.len() > 0
        &&& self.dates@.no_duplicates()
        &&& self.dates@.contains(self.min_date)
        &&& self.dates@.contains(self.max_date)
        &&& forall|i: int|
            0 <= i < self.dates@.len() ==> date_le(self.min_date, #[trigger] self.dates@[i])
                && date_le(self.dates@[i], self.max_date)
    }

    pub closed spec fn spec_path(self) -> Seq<char> {
        self.path@
    }

    pub closed spec fn spec_min(self) -> Date {
        self.min_date
    }

    pub closed spec fn spec_max(self) -> Date {
        self.max_date
    }

    /// The days of the photos in the directory.
    pub closed spec fn spec_dates(self) -> Set<Date> {
        self.dates@.to_set()
    }

    /// The directory at `path` whose photos were taken on the days `found`
    /// (in any order, possibly repeated); `None` when it holds no dated photo.
    pub fn from_dates(path: String, found: Vec<Date>) -> (r: Option<ExistingDir>)
        ensures
            match r {
                Some(d) => {
                    &&& found@.len() > 0
                    &&& d.spec_path() == path@
                    &&& d.spec_dates() == found@.to_set()
                    &&& found@.contains(d.spec_min())
                    &&& found@.contains(d.spec_max())
                    &&& forall|i: int|
                        0 <= i < found@.len() ==> date_le(d.spec_min(), #[trigger] found@[i])
                            && date_le(found@[i], d.spec_max())
                },
                None => found@.len() == 0,
            },
    {
        if found.len() == 0 {
            return None;
        }
        let mut dates: Vec<Date> = Vec::new();
        let mut min_date = found[0];
        let mut max_date = found[0];
        let mut i: usize = 0;
        while i < found.len()
            invariant
                0 < found@.len(),
                i <= found@.len(),
                dates@.no_duplicates(),
                forall|x: Date| #[trigger] dates@.contains(x) <==> found@.take(i as int).contains(x),
                found@.contains(min_date),
                found@.contains(max_date),
                i > 0 ==> dates@.contains(min_date) && dates@.contains(max_date),
                i == 0 ==> min_date == found@[0] && max_date == found@[0],
                forall|k: int|
                    0 <= k < i ==> date_le(min_date, #[trigger] found@[k]) && date_le(
                        found@[k],
                        max_date,
                    ),
            decreases found@.len() - i,
        {
            let d = found[i];
            let mut seen = false;
            let mut j: usize = 0;
            while j < dates.len()
                invariant
                    j <= dates@.len(),
                    seen <==> exists|k: int| 0 <= k < j && dates@[k] == d,
                decreases dates@.len() - j,
            {
                if dates[j] == d {
                    seen = true;
                }
                j = j + 1;
            }
            proof {
                assert(found@.take(i + 1) == found@.take(i as int).push(d));
                lemma_date_order(d, min_date, max_date);
            }
            let ghost before = dates@;
            if !seen {
                dates.push(d);
            } else {
                proof {
                    let k = choose|k: int| 0 <= k < dates@.len() && dates@[k] == d;
                    assert(dates@.contains(d));
                }
            }
            proof {
                let next = found@.take(i + 1);
                assert(next[i as int] == d);
                assert(next.contains(d));
                assert forall|x: Date| #[trigger] dates@.contains(x) <==> next.contains(x) by {
                    if dates@.contains(x) && x != d {
                        let k = choose|k: int| 0 <= k < dates@.len() && dates@[k] == x;
                        assert(before[k] == x);
                        assert(before.contains(x));
                        let m = choose|m: int| 0 <= m < i && found@.take(i as int)[m] == x;
                        assert(next[m] == x);
                    }
                    if next.contains(x) && x != d {
                        let m = choose|m: int| 0 <= m < i + 1 && next[m] == x;
                        assert(found@.take(i as int)[m] == x);
                        assert(found@.take(i as int).contains(x));
                        assert(before.contains(x));
                        let k = choose|k: int| 0 <= k < before.len() && before[k] == x;
                        assert(dates@[k] == x);
                    }
                    if x == d {
                        if !seen {
                            assert(dates@[dates@.len() - 1] == d);
                        }
                    }
                }
            }
            let ghost old_min = min_date;
            let ghost old_max = max_date;
            if date_less(&d, &min_date) {
                min_date = d;
            }
            if date_less(&max_date, &d) {
                max_date = d;
            }
            proof {
                assert(dates@.contains(d));
                lemma_date_order(d, old_min, d);
                lemma_date_order(d, old_max, d);
                assert forall|k: int| 0 <= k < i + 1 implies date_le(min_date, #[trigger] found@[k])
                    && date_le(found@[k], max_date) by {
                    if k < i {
                        lemma_date_order(d, old_min, found@[k]);
                        lemma_date_order(found@[k], old_max, d);
                    } else {
                        assert(found@[k] == d);
                    }
                }
            }
            i = i + 1;
        }
        assert(found@.take(found@.len() as int) == found@);
        assert(dates@.to_set() =~= found@.to_set());
        proof {
            assert forall|k: int| 0 <= k < dates@.len() implies date_le(min_date, #[trigger] dates@[k])
                && date_le(dates@[k], max_date) by {
                assert(dates@.contains(dates@[k]));
                assert(found@.contains(dates@[k]));
                let m = choose|m: int| 0 <= m < found@.len() && found@[m] == dates@[k];
                assert(date_le(min_date, found@[m]));
            }
        }
        Some(ExistingDir { path, min_date, max_date, dates })
    }

    pub fn path(&self) -> (r: &String)
        ensures
            r@ == self.spec_path(),
    {
        &self.path
    }

    /// The first day of a photo in the directory.
    pub fn min_date(&self) -> (r: Date)
        ensures
            r == self.spec_min(),
            self.spec_dates().contains(r),
            date_le(r, self.spec_max()),
            forall|d: Date| #[trigger] self.spec_dates().contains(d) ==> date_le(r, d),
    {
        proof {
            use_type_invariant(self);
            self.lemma_bounds();
        }
        self.min_date
    }

    /// The last day of a photo in the directory.
    pub fn max_date(&self) -> (r: Date)
        ensures
            r == self.spec_max(),
            self.spec_dates().contains(r),
            forall|d: Date| #[trigger] self.spec_dates().contains(d) ==> date_le(d, r),
    {
        proof {
            use_type_invariant(self);
            self.lemma_bounds();
        }
        self.max_date
    }

    proof fn lemma_bounds(self)
        requires
            self.well_formed(),
        ensures
            self.spec_dates().contains(self.min_date),
            self.spec_dates().contains(self.max_date),
            date_le(self.min_date, self.max_date),
            forall|d: Date| #[trigger] self.spec_dates().contains(d) ==> date_le(self.min_date, d)
                && date_le(d, self.max_date),
    {
        assert forall|d: Date| #[trigger] self.spec_dates().contains(d) implies date_le(
            self.min_date,
            d,
        ) && date_le(d, self.max_date) by {
            let k = choose|k: int| 0 <= k < self.dates@.len() && self.dates@[k] == d;
        }
        let k = choose|k: int| 0 <= k < self.dates@.len() && self.dates@[k] == self.max_date;
        assert(date_le(self.min_date, self.dates@[k]));
    }

    /// Whether a photo of day `date` is in the directory.
    pub fn has_date(&self, date: Date) -> (r: bool)
        ensures
            r == self.spec_dates().contains(date),
    {
        let mut j: usize = 0;
        while j < self.dates.len()
            invariant
                j <= self.dates@.len(),
                forall|k: int| 0 <= k < j ==> self.dates@[k] != date,
            decreases self.dates@.len() - j,
        {
            if self.dates[j] == date {
                assert(self.dates@.contains(date));
                return true;
            }
            j = j + 1;
        }
        proof {
            if self.dates@.to_set().contains(date) {
                let k = choose|k: int| 0 <= k < self.dates@.len() && self.dates@[k] == date;
            }
        }
        false
    }

}

/// A photo of day `date` belongs in directory `d` when the directory holds a
/// photo of that day or the day lies strictly between its first and last days.
pub open spec fn dir_matches(d: ExistingDir, date: Date) -> bool {
    d.spec_dates().contains(date) || (date_lt(d.spec_min(), date) && date_lt(date, d.spec_max()))
}

/// The index of the first directory of `dirs`, from the `i`-th on, that the
/// day matches.
pub open spec fn first_match_from(dirs: Seq<ExistingDir>, date: Date, i: int) -> Option<int>
    decreases dirs.len() - i,
{
    if i < 0 || i >= dirs.len() {
        None
    } else if dir_matches(dirs[i], date) {
        Some(i)
    } else {
        first_match_from(dirs, date, i + 1)
    }
}

/// The index of the first directory of `dirs` that the day matches.
pub open spec fn first_match(dirs: Seq<ExistingDir>, date: Date) -> Option<int> {
    first_match_from(dirs, date, 0)
}

/// The first match is a directory that matches, and none before it does;
/// without a match, no directory matches.
pub proof fn lemma_first_match(dirs: Seq<ExistingDir>, date: Date)
    ensures
        match first_match(dirs, date) {
            Some(k) => 0 <= k < dirs.len() && dir_matches(dirs[k], date) && forall|j: int|
                0 <= j < k ==> !dir_matches(#[trigger] dirs[j], date),
            None => forall|j: int| 0 <= j < dirs.len() ==> !dir_matches(#[trigger] dirs[j], date),
        },
{
    lemma_first_match_from(dirs, date, 0);
}

proof fn lemma_first_match_from(dirs: Seq<ExistingDir>, date: Date, i: int)
    requires
        0 <= i,
    ensures
        match first_match_from(dirs, date, i) {
            Some(k) => i <= k < dirs.len() && dir_matches(dirs[k], date) && forall|j: int|
                i <= j < k ==> !dir_matches(#[trigger] dirs[j], date),
            None => forall|j: int| i <= j < dirs.len() ==> !dir_matches(#[trigger] dirs[j], date),
        },
    decreases dirs.len() - i,
{
    if i < dirs.len() && !dir_matches(dirs[i], date) {
        lemma_first_match_from(dirs, date, i + 1);
    }
}

/// The first existing directory that a photo of day `date` joins: one that
/// holds a photo of the same day, or whose span strictly contains the day.
pub fn find_matching_dir<'a>(dirs: &'a [ExistingDir], date: Date) -> (r: Option<&'a ExistingDir>)
    ensures
        match r {
            Some(d) => exists|i: int|
                0 <= i < dirs@.len() && dirs@[i] == *d && first_match(dirs@, date) == Some(i),
            None => first_match(dirs@, date) is None,
        },
{
    match find_matching_index(dirs, date) {
        Some(i) => Some(&dirs[i]),
        None => None,
    }
}

/// The index of the directory that `find_matching_dir` returns.
pub fn find_matching_index(dirs: &[ExistingDir], date: Date) -> (r: Option<usize>)
    ensures
        match r {
            Some(i) => i < dirs@.len() && first_match(dirs@, date) == Some(i as int),
            None => first_match(dirs@, date) is None,
        },
{
    let mut i: usize = 0;
    while i < dirs.len()
        invariant
            i <= dirs@.len(),
            first_match(dirs@, date) == first_match_from(dirs@, date, i as int),
        decreases dirs@.len() - i,
    {
        let d = &dirs[i];
        if d.has_date(date) || (date_less(&d.min_date(), &date) && date_less(&date, &d.max_date())) {
            return Some(i);
        }
        i = i + 1;
    }
    None
}

} // verus!
