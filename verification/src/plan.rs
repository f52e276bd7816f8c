//! Planning where organized photos go, and accounting for what was done.
use vstd::prelude::*;
use vstd::multiset::Multiset;
use crate::calendar::{iso_date, month_dir_name, spec_day_dir_name, spec_month_dir_name, day_dir_name, Date};
use crate::group::{cluster_by_date, reversed, clusters_match, photos, spec_clusters, Cluster, Photo, PhotoFile};
use crate::layout::{DateSource, file_subdir, is_primary, spec_file_subdir, spec_is_primary};
use crate::paths::{extension, file_name, join, spec_extension, spec_file_name, spec_join};
use crate::scan::{find_matching_index, first_match, lemma_first_match, ExistingDir};
use crate::text::{decimal, decimal_string, push_str};

verus! {

broadcast use vstd::seq_lib::group_seq_properties;

/// Files bound for one destination directory.
pub struct PlannedBatch {
    pub dest_root: String,
    pub files: Vec<PhotoFile>,
    /// Whether primary files (JPEG, HEIC, video) share the directory, which
    /// sends the other files to subdirectories.
    pub has_primaries: bool,
    /// Whether a file of the same name and day already there is skipped.
    pub check_duplicates: bool,
}

/// A planned batch as a value: destination, photos, and the two flags.
pub type Batch = (Seq<char>, Seq<Photo>, bool, bool);

pub open spec fn batch_view(b: PlannedBatch) -> Batch {
    (b.dest_root@, photos(b.files@), b.has_primaries, b.check_duplicates)
}

pub open spec fn batches_view(v: Seq<PlannedBatch>) -> Seq<Batch> {
    v.map_values(|b: PlannedBatch| batch_view(b))
}

/// The extension of a path, or the empty text when it has none.
pub open spec fn spec_ext_of(p: Seq<char>) -> Seq<char> {
    match spec_extension(p) {
        Some(e) => e,
        None => Seq::empty(),
    }
}

pub fn ext_of(path: &str) -> (r: String)
    ensures
        r@ == spec_ext_of(path@),
{
    match extension(path) {
        Some(e) => e,
        None => String::new(),
    }
}

/// Whether some photo is a primary file.
pub open spec fn spec_any_primary(s: Seq<Photo>) -> bool {
    exists|i: int| 0 <= i < s.len() && spec_is_primary(spec_ext_of(#[trigger] s[i].0))
}

pub fn any_primary(files: &Vec<PhotoFile>) -> (r: bool)
    ensures
        r == spec_any_primary(photos(files@)),
{
    let mut i: usize = 0;
    while i < files.len()
        invariant
            i <= files@.len(),
            forall|j: int| 0 <= j < i ==> !spec_is_primary(spec_ext_of(#[trigger] files@[j].path@)),
        decreases files@.len() - i,
    {
        let e = ext_of(files[i].path.as_str());
        if is_primary(e.as_str()) {
            assert(photos(files@)[i as int].0 == files@[i as int].path@);
            return true;
        }
        i = i + 1;
    }
    proof {
        if spec_any_primary(photos(files@)) {
            let j = choose|j: int|
                0 <= j < photos(files@).len() && spec_is_primary(
                    spec_ext_of(#[trigger] photos(files@)[j].0),
                );
            assert(photos(files@)[j].0 == files@[j].path@);
        }
    }
    false
}

// ---------------------------------------------------------------------------
// Sort mode
// ---------------------------------------------------------------------------

/// The day directory of a cluster under `output`: its month directory, then
/// its day or range of days.
pub open spec fn spec_day_dir(output: Seq<char>, start: Date, end: Date) -> Seq<char> {
    spec_join(spec_join(output, spec_month_dir_name(start)), spec_day_dir_name(start, end))
}

/// The batch of a new cluster whose day directory is `dest`.
pub open spec fn new_batch(dest: Seq<char>, g: Seq<Photo>) -> Batch {
    (dest, g, spec_any_primary(g), false)
}

/// The plan of sort mode: one new day directory per cluster.
pub open spec fn spec_sort_plan(output: Seq<char>, s: Seq<Photo>) -> Seq<Batch> {
    spec_clusters(s).map_values(
        |g: Seq<Photo>| new_batch(spec_day_dir(output, g[0].1, g.last().1), g),
    )
}

/// Plans sort mode: each cluster of the photos goes to its own day
/// directory inside its month directory under `output`.
pub fn plan_sort(output: &str, files: Vec<PhotoFile>) -> (r: Vec<PlannedBatch>)
    ensures
        batches_view(r@) == spec_sort_plan(output@, photos(files@)),
{
    let ghost g = spec_clusters(photos(files@));
    let clusters = cluster_by_date(files);
    let ghost cs = clusters@;
    let ghost n = cs.len();
    let mut rest = reversed(clusters);
    let mut plan: Vec<PlannedBatch> = Vec::new();
    while rest.len() > 0
        invariant
            clusters_match(cs, g),
            n == cs.len(),
            rest@.len() <= n,
            rest@ == cs.skip(n - rest@.len()).reverse(),
            plan@.len() == n - rest@.len(),
            forall|k: int|
                0 <= k < plan@.len() ==> batch_view(#[trigger] plan@[k]) == new_batch(
                    spec_day_dir(output@, g[k][0].1, g[k].last().1),
                    g[k],
                ),
        decreases rest@.len(),
    {
        let ghost k = n - rest@.len();
        let c = rest.pop().unwrap();
        assert(c == cs[k]);
        let month = join(output, month_dir_name(&c.start).as_str());
        let day = join(month.as_str(), day_dir_name(&c.start, &c.end).as_str());
        let has_primaries = any_primary(&c.files);
        plan.push(PlannedBatch { dest_root: day, files: c.files, has_primaries, check_duplicates: false });
        assert(rest@ =~= cs.skip(n - rest@.len()).reverse());
    }
    assert(batches_view(plan@) =~= spec_sort_plan(output@, photos(files@)));
    plan
}

// ---------------------------------------------------------------------------
// Import mode
// ---------------------------------------------------------------------------

/// The photos of one calendar month.
pub struct MonthFiles {
    pub year: i32,
    pub month: u32,
    pub files: Vec<PhotoFile>,
}

/// The month of a photo, as (year, month).
pub open spec fn month_of(p: Photo) -> (int, int) {
    (p.1.y(), p.1.m())
}

/// The months of the photos, each once, in the order they first occur.
pub open spec fn month_keys(s: Seq<Photo>) -> Seq<(int, int)>
    decreases s.len(),
{
    if s.len() == 0 {
        Seq::empty()
    } else {
        let k = month_keys(s.drop_last());
        if k.contains(month_of(s.last())) {
            k
        } else {
            k.push(month_of(s.last()))
        }
    }
}

pub open spec fn in_month(key: (int, int)) -> spec_fn(Photo) -> bool {
    |p: Photo| month_of(p) == key
}

/// The groups `r` are the months `keys` with the photos of `s` in each.
pub open spec fn months_match(r: Seq<MonthFiles>, keys: Seq<(int, int)>, s: Seq<Photo>) -> bool {
    &&& r.len() == keys.len()
    &&& forall|i: int|
        0 <= i < r.len() ==> {
            &&& ((#[trigger] r[i]).year as int, r[i].month as int) == keys[i]
            &&& photos(r[i].files@) == s.filter(in_month(keys[i]))
        }
}

proof fn lemma_month_keys(s: Seq<Photo>)
    ensures
        month_keys(s).no_duplicates(),
        forall|p: Photo| s.contains(p) ==> month_keys(s).contains(#[trigger] month_of(p)),
        forall|k: (int, int)| #[trigger] month_keys(s).contains(k) ==> s.filter(in_month(k)).len() > 0,
    decreases s.len(),
{
    broadcast use Seq::lemma_filter_push;

    if s.len() > 0 {
        let t = s.drop_last();
        lemma_month_keys(t);
        assert(s == t.push(s.last()));
        assert forall|p: Photo| s.contains(p) implies month_keys(s).contains(#[trigger] month_of(p)) by {
            if p != s.last() {
                let i = choose|i: int| 0 <= i < s.len() && s[i] == p;
                assert(t[i] == p);
                assert(t.contains(p));
            }
        }
        assert forall|k: (int, int)| #[trigger] month_keys(s).contains(k) implies s.filter(
            in_month(k),
        ).len() > 0 by {
            assert(t.push(s.last()).filter(in_month(k)) == if in_month(k)(s.last()) {
                t.filter(in_month(k)).push(s.last())
            } else {
                t.filter(in_month(k))
            });
            if !month_keys(t).contains(k) {
                assert(k == month_of(s.last()));
            }
        }
    }
}

/// Groups photos by calendar month, months in the order in which they first
/// occur and photos of a month in their given order.
pub fn group_by_month(files: Vec<PhotoFile>) -> (r: Vec<MonthFiles>)
    ensures
        months_match(r@, month_keys(photos(files@)), photos(files@)),
{
    broadcast use Seq::lemma_filter_push;

    let ghost s = photos(files@);
    let ghost v = files@;
    let ghost n = v.len();
    let mut rest = reversed(files);
    let mut groups: Vec<MonthFiles> = Vec::new();
    while rest.len() > 0
        invariant
            n == v.len(),
            s == photos(v),
            rest@.len() <= n,
            rest@ == v.skip(n - rest@.len()).reverse(),
            months_match(groups@, month_keys(s.take(n - rest@.len())), s.take(n - rest@.len())),
        decreases rest@.len(),
    {
        let ghost i = n - rest@.len();
        let file = rest.pop().unwrap();
        assert(file == v[i]);
        let ghost before = s.take(i);
        let ghost after = s.take(i + 1);
        assert(after == before.push(file@));
        assert(after.drop_last() == before);
        let year = file.date.year();
        let month = file.date.month();
        let mut j: usize = 0;
        while j < groups.len() && !(groups[j].year == year && groups[j].month == month)
            invariant
                j <= groups@.len(),
                forall|k: int| 0 <= k < j ==> ((#[trigger] groups@[k]).year, groups@[k].month) != (year, month),
            decreases groups@.len() - j,
        {
            j = j + 1;
        }
        let ghost keys = month_keys(before);
        if j < groups.len() {
            assert(keys[j as int] == month_of(file@));
            let mut g = groups.remove(j);
            g.files.push(file);
            groups.insert(j, g);
            proof {
                assert(keys.contains(month_of(file@)));
                assert(month_keys(after) == keys);
                assert forall|k: int| 0 <= k < groups@.len() implies {
                    &&& ((#[trigger] groups@[k]).year as int, groups@[k].month as int) == keys[k]
                    &&& photos(groups@[k].files@) == after.filter(in_month(keys[k]))
                } by {
                    before.lemma_filter_push(file@, in_month(keys[k]));
                    assert(before.push(file@).filter(in_month(keys[k])) == if in_month(keys[k])(file@) {
                        before.filter(in_month(keys[k])).push(file@)
                    } else {
                        before.filter(in_month(keys[k]))
                    });
                    if k == j {
                        assert(groups@[k] == g);
                        assert(photos(g.files@) =~= photos(g.files@.drop_last()).push(file@));
                        assert(in_month(keys[k])(file@));
                    } else {
                        assert(!in_month(keys[k])(file@)) by {
                            lemma_month_keys(before);
                            assert(keys[k] != keys[j as int]);
                        }
                    }
                }
            }
        } else {
            let mut fs: Vec<PhotoFile> = Vec::new();
            fs.push(file);
            groups.push(MonthFiles { year, month, files: fs });
            proof {
                assert(!keys.contains(month_of(file@))) by {
                    if keys.contains(month_of(file@)) {
                        let k = choose|k: int| 0 <= k < keys.len() && keys[k] == month_of(file@);
                        assert(((groups@[k]).year as int, groups@[k].month as int) == keys[k]);
                    }
                }
                assert(month_keys(after) == keys.push(month_of(file@)));
                assert forall|k: int| 0 <= k < groups@.len() implies {
                    &&& ((#[trigger] groups@[k]).year as int, groups@[k].month as int) == month_keys(after)[k]
                    &&& photos(groups@[k].files@) == after.filter(in_month(month_keys(after)[k]))
                } by {
                    let key = month_keys(after)[k];
                    before.lemma_filter_push(file@, in_month(key));
                    assert(before.push(file@).filter(in_month(key)) == if in_month(key)(file@) {
                        before.filter(in_month(key)).push(file@)
                    } else {
                        before.filter(in_month(key))
                    });
                    if k == groups@.len() - 1 {
                        assert(before.filter(in_month(key)).len() == 0) by {
                            lemma_no_photo_of_month(before, key);
                        }
                        assert(photos(groups@[k].files@) =~= seq![file@]);
                        assert(before.filter(in_month(key)).push(file@) =~= seq![file@]);
                    }
                }
            }
        }
        assert(rest@ =~= v.skip(n - rest@.len()).reverse());
    }
    assert(s.take(n as int) =~= s);
    groups
}

/// A month that is not among the keys has no photo.
proof fn lemma_no_photo_of_month(s: Seq<Photo>, key: (int, int))
    requires
        !month_keys(s).contains(key),
    ensures
        s.filter(in_month(key)).len() == 0,
{
    lemma_month_keys(s);
    if s.filter(in_month(key)).len() > 0 {
        let x = s.filter(in_month(key))[0];
        assert(s.filter(in_month(key)).contains(x));
        s.lemma_filter_contains_rev(in_month(key), x);
        assert(s.contains(x));
        assert(month_keys(s).contains(month_of(x)));
    }
}

/// A photo whose first matching existing directory is the `i`-th.
pub open spec fn goes_to(dirs: Seq<ExistingDir>, i: int) -> spec_fn(Photo) -> bool {
    |p: Photo| first_match(dirs, p.1) == Some(i)
}

/// A photo that no existing directory matches.
pub open spec fn unmatched(dirs: Seq<ExistingDir>) -> spec_fn(Photo) -> bool {
    |p: Photo| first_match(dirs, p.1) is None
}

/// A photo not taken by any of the first `i` existing directories.
spec fn not_taken_before(dirs: Seq<ExistingDir>, i: int) -> spec_fn(Photo) -> bool {
    |p: Photo|
        match first_match(dirs, p.1) {
            Some(k) => k >= i,
            None => true,
        }
}

/// The batches for the first `n` existing directories: each directory that
/// some photo goes to receives those photos, in their order.
pub open spec fn existing_batches(
    dirs: Seq<ExistingDir>,
    dir_primaries: Seq<bool>,
    s: Seq<Photo>,
    n: int,
) -> Seq<Batch>
    decreases n,
{
    if n <= 0 {
        Seq::empty()
    } else {
        let before = existing_batches(dirs, dir_primaries, s, n - 1);
        let mine = s.filter(goes_to(dirs, n - 1));
        if mine.len() > 0 {
            before.push(
                (dirs[n - 1].spec_path(), mine, dir_primaries[n - 1] || spec_any_primary(mine), true),
            )
        } else {
            before
        }
    }
}

/// The plan of import mode for one month: photos that match an existing
/// directory go there (checking for duplicates); the others are clustered
/// into new day directories under `month_dir`.
pub open spec fn spec_import_plan(
    month_dir: Seq<char>,
    dirs: Seq<ExistingDir>,
    dir_primaries: Seq<bool>,
    s: Seq<Photo>,
) -> Seq<Batch> {
    existing_batches(dirs, dir_primaries, s, dirs.len() as int) + spec_clusters(
        s.filter(unmatched(dirs)),
    ).map_values(
        |g: Seq<Photo>| new_batch(spec_join(month_dir, spec_day_dir_name(g[0].1, g.last().1)), g),
    )
}

/// Filtering twice is filtering by both conditions.
proof fn lemma_filter_twice(
    s: Seq<Photo>,
    p: spec_fn(Photo) -> bool,
    q: spec_fn(Photo) -> bool,
    r: spec_fn(Photo) -> bool,
)
    requires
        forall|x: Photo| #[trigger] r(x) == (p(x) && q(x)),
    ensures
        s.filter(p).filter(q) == s.filter(r),
    decreases s.len(),
{
    if s.len() > 0 {
        let t = s.drop_last();
        let x = s.last();
        lemma_filter_twice(t, p, q, r);
        assert(s == t.push(x));
        t.lemma_filter_push(x, p);
        t.lemma_filter_push(x, r);
        t.filter(p).lemma_filter_push(x, q);
    }
}

/// A photo that does not go to the `i`-th existing directory.
pub open spec fn stays(dirs: Seq<ExistingDir>, i: int) -> spec_fn(Photo) -> bool {
    |p: Photo| !goes_to(dirs, i)(p)
}

/// Takes out of `files` those that go to the `i`-th existing directory,
/// keeping the order of both parts.
fn split_for_dir(dirs: &[ExistingDir], i: usize, files: Vec<PhotoFile>) -> (r: (
    Vec<PhotoFile>,
    Vec<PhotoFile>,
))
    ensures
        photos(r.0@) == photos(files@).filter(goes_to(dirs@, i as int)),
        photos(r.1@) == photos(files@).filter(stays(dirs@, i as int)),
{
    let ghost v = files@;
    let ghost s = photos(v);
    let ghost n = v.len();
    let ghost keep = stays(dirs@, i as int);
    let mut rest = reversed(files);
    let mut mine: Vec<PhotoFile> = Vec::new();
    let mut others: Vec<PhotoFile> = Vec::new();
    while rest.len() > 0
        invariant
            n == v.len(),
            s == photos(v),
            rest@.len() <= n,
            rest@ == v.skip(n - rest@.len()).reverse(),
            photos(mine@) == s.take(n - rest@.len()).filter(goes_to(dirs@, i as int)),
            keep == stays(dirs@, i as int),
            photos(others@) == s.take(n - rest@.len()).filter(keep),
        decreases rest@.len(),
    {
        let ghost k = n - rest@.len();
        let file = rest.pop().unwrap();
        assert(file == v[k]);
        let ghost before = s.take(k);
        assert(s.take(k + 1) == before.push(file@));
        proof {
            before.lemma_filter_push(file@, goes_to(dirs@, i as int));
            before.lemma_filter_push(file@, keep);
        }
        let found = find_matching_index(dirs, file.date);
        let to_mine = match found {
            Some(j) => j == i,
            None => false,
        };
        if to_mine {
            let ghost old_mine = mine@;
            mine.push(file);
            assert(photos(mine@) =~= photos(old_mine).push(file@));
        } else {
            assert(!goes_to(dirs@, i as int)(file@));
            assert(keep(file@));
            let ghost old_others = others@;
            others.push(file);
            assert(photos(others@) =~= photos(old_others).push(file@));
        }
        assert(rest@ =~= v.skip(n - rest@.len()).reverse());
    }
    assert(s.take(n as int) =~= s);
    (mine, others)
}

/// Plans import mode for the photos of one month. `existing` are the day
/// directories already in `month_dir`, and `dir_primaries` tells for each
/// whether it already holds primary files.
pub fn plan_month_import(
    month_dir: &str,
    existing: &[ExistingDir],
    dir_primaries: &[bool],
    files: Vec<PhotoFile>,
) -> (r: Vec<PlannedBatch>)
    requires
        dir_primaries@.len() == existing@.len(),
    ensures
        batches_view(r@) == spec_import_plan(month_dir@, existing@, dir_primaries@, photos(files@)),
{
    let ghost s = photos(files@);
    let ghost dirs = existing@;
    let mut remaining = files;
    let mut plan: Vec<PlannedBatch> = Vec::new();
    let mut i: usize = 0;
    proof {
        assert forall|p: Photo| #[trigger] not_taken_before(dirs, 0)(p) by {
            lemma_first_match(dirs, p.1);
        }
        assert(not_taken_before(dirs, 0) =~= |p: Photo| true);
        lemma_filter_all(s);
    }
    while i < existing.len()
        invariant
            dir_primaries@.len() == existing@.len(),
            dirs == existing@,
            i <= existing@.len(),
            photos(remaining@) == s.filter(not_taken_before(dirs, i as int)),
            batches_view(plan@) == existing_batches(dirs, dir_primaries@, s, i as int),
        decreases existing@.len() - i,
    {
        let (mine, others) = split_for_dir(existing, i, remaining);
        proof {
            lemma_filter_twice(
                s,
                not_taken_before(dirs, i as int),
                goes_to(dirs, i as int),
                goes_to(dirs, i as int),
            );
            lemma_filter_twice(
                s,
                not_taken_before(dirs, i as int),
                stays(dirs, i as int),
                not_taken_before(dirs, i + 1),
            );
        }
        if mine.len() > 0 {
            let has_primaries = dir_primaries[i] || any_primary(&mine);
            let dest_root = existing[i].path().clone();
            let ghost old_plan = plan@;
            plan.push(PlannedBatch { dest_root, files: mine, has_primaries, check_duplicates: true });
            assert(batches_view(plan@) =~= batches_view(old_plan).push(batch_view(plan@.last())));
        }
        remaining = others;
        i = i + 1;
    }
    proof {
        assert forall|p: Photo| #[trigger] not_taken_before(dirs, dirs.len() as int)(p) == unmatched(
            dirs,
        )(p) by {
            lemma_first_match(dirs, p.1);
        }
        assert(not_taken_before(dirs, dirs.len() as int) =~= unmatched(dirs));
    }
    let ghost new_photos = photos(remaining@);
    let ghost g = spec_clusters(new_photos);
    let ghost base = plan@;
    let clusters = cluster_by_date(remaining);
    let ghost cs = clusters@;
    let ghost n = cs.len();
    let mut rest = reversed(clusters);
    while rest.len() > 0
        invariant
            clusters_match(cs, g),
            n == cs.len(),
            rest@.len() <= n,
            rest@ == cs.skip(n - rest@.len()).reverse(),
            plan@.len() == base.len() + n - rest@.len(),
            forall|k: int| 0 <= k < base.len() ==> #[trigger] plan@[k] == base[k],
            forall|k: int|
                0 <= k < n - rest@.len() ==> batch_view(#[trigger] plan@[base.len() + k]) == new_batch(
                    spec_join(month_dir@, spec_day_dir_name(g[k][0].1, g[k].last().1)),
                    g[k],
                ),
        decreases rest@.len(),
    {
        let ghost k = n - rest@.len();
        let c = rest.pop().unwrap();
        assert(c == cs[k]);
        let day = join(month_dir, day_dir_name(&c.start, &c.end).as_str());
        let has_primaries = any_primary(&c.files);
        plan.push(PlannedBatch { dest_root: day, files: c.files, has_primaries, check_duplicates: false });
        assert(rest@ =~= cs.skip(n - rest@.len()).reverse());
    }
    proof {
        let spec = spec_import_plan(month_dir@, dirs, dir_primaries@, s);
        assert(batches_view(base) == existing_batches(dirs, dir_primaries@, s, dirs.len() as int));
        let eb = existing_batches(dirs, dir_primaries@, s, dirs.len() as int);
        let nb = spec_clusters(s.filter(unmatched(dirs))).map_values(
            |g: Seq<Photo>| new_batch(spec_join(month_dir@, spec_day_dir_name(g[0].1, g.last().1)), g),
        );
        assert(spec == eb + nb);
        assert(nb.len() == n);
        assert forall|k: int| 0 <= k < plan@.len() implies #[trigger] batches_view(plan@)[k] == spec[k] by {
            if k < base.len() {
                assert(batches_view(base)[k] == batch_view(base[k]));
            } else {
                let j = k - base.len();
                assert(plan@[base.len() + j] == plan@[k]);
                assert(nb[j] == new_batch(
                    spec_join(month_dir@, spec_day_dir_name(g[j][0].1, g[j].last().1)),
                    g[j],
                ));
            }
        }
        assert(batches_view(plan@) =~= spec);
    }
    plan
}

proof fn lemma_filter_all(s: Seq<Photo>)
    ensures
        s.filter(|p: Photo| true) == s,
    decreases s.len(),
{
    if s.len() > 0 {
        lemma_filter_all(s.drop_last());
        s.drop_last().lemma_filter_push(s.last(), |p: Photo| true);
        assert(s == s.drop_last().push(s.last()));
    }
}

// ---------------------------------------------------------------------------
// Every photo is planned once
// ---------------------------------------------------------------------------

/// The photos of each batch, in plan order.
pub open spec fn planned_photos(plan: Seq<Batch>) -> Seq<Seq<Photo>> {
    plan.map_values(|b: Batch| b.1)
}

/// A photo taken by one of the first `n` existing directories.
pub open spec fn taken_before(dirs: Seq<ExistingDir>, n: int) -> spec_fn(Photo) -> bool {
    |p: Photo|
        match first_match(dirs, p.1) {
            Some(k) => k < n,
            None => false,
        }
}

/// Filtering by either of two exclusive conditions gives the photos of both.
proof fn lemma_filter_split(
    s: Seq<Photo>,
    p: spec_fn(Photo) -> bool,
    q: spec_fn(Photo) -> bool,
    r: spec_fn(Photo) -> bool,
)
    requires
        forall|x: Photo| #[trigger] r(x) == (p(x) || q(x)),
        forall|x: Photo| !(#[trigger] p(x) && q(x)),
    ensures
        s.filter(r).to_multiset() == s.filter(p).to_multiset().add(s.filter(q).to_multiset()),
    decreases s.len(),
{
    broadcast use vstd::seq_lib::group_to_multiset_ensures;
    broadcast use vstd::multiset::group_multiset_axioms;

    if s.len() == 0 {
        assert(s.filter(r) =~= s);
        assert(s.filter(p) =~= s);
        assert(s.filter(q) =~= s);
        assert(s.to_multiset() =~= Multiset::empty());
        assert(s.to_multiset().add(s.to_multiset()) =~= Multiset::empty());
    } else {
        let t = s.drop_last();
        let x = s.last();
        lemma_filter_split(t, p, q, r);
        assert(s == t.push(x));
        t.lemma_filter_push(x, p);
        t.lemma_filter_push(x, q);
        t.lemma_filter_push(x, r);
        if p(x) {
            assert(t.filter(p).push(x).to_multiset() =~= t.filter(p).to_multiset().insert(x));
            assert(t.filter(r).push(x).to_multiset() =~= t.filter(r).to_multiset().insert(x));
            assert(s.filter(r).to_multiset() =~= s.filter(p).to_multiset().add(s.filter(q).to_multiset()));
        } else if q(x) {
            assert(t.filter(q).push(x).to_multiset() =~= t.filter(q).to_multiset().insert(x));
            assert(t.filter(r).push(x).to_multiset() =~= t.filter(r).to_multiset().insert(x));
            assert(s.filter(r).to_multiset() =~= s.filter(p).to_multiset().add(s.filter(q).to_multiset()));
        }
    }
}

proof fn lemma_existing_batches_photos(dirs: Seq<ExistingDir>, prim: Seq<bool>, s: Seq<Photo>, n: int)
    requires
        0 <= n <= dirs.len(),
    ensures
        planned_photos(existing_batches(dirs, prim, s, n)).flatten().to_multiset() == s.filter(
            taken_before(dirs, n),
        ).to_multiset(),
        forall|k: int|
            0 <= k < existing_batches(dirs, prim, s, n).len() ==> (#[trigger] existing_batches(
                dirs,
                prim,
                s,
                n,
            )[k]).1.len() > 0,
    decreases n,
{
    broadcast use vstd::seq_lib::group_to_multiset_ensures;
    broadcast use vstd::multiset::group_multiset_axioms;
    broadcast use Seq::lemma_flatten_push;

    if n == 0 {
        assert forall|x: Photo| !#[trigger] taken_before(dirs, 0)(x) by {
            lemma_first_match(dirs, x.1);
        }
        assert(taken_before(dirs, 0) =~= |x: Photo| false);
        lemma_filter_none(s);
        assert(planned_photos(existing_batches(dirs, prim, s, 0)) =~= Seq::<Seq<Photo>>::empty());
        assert(Seq::<Photo>::empty().to_multiset() =~= Multiset::empty());
    } else {
        lemma_existing_batches_photos(dirs, prim, s, n - 1);
        assert forall|x: Photo| #[trigger] taken_before(dirs, n)(x) == (taken_before(dirs, n - 1)(x)
            || goes_to(dirs, n - 1)(x)) by {}
        lemma_filter_split(s, taken_before(dirs, n - 1), goes_to(dirs, n - 1), taken_before(dirs, n));
        let before = existing_batches(dirs, prim, s, n - 1);
        let mine = s.filter(goes_to(dirs, n - 1));
        if mine.len() > 0 {
            let b = (dirs[n - 1].spec_path(), mine, prim[n - 1] || spec_any_primary(mine), true);
            assert(existing_batches(dirs, prim, s, n) == before.push(b));
            assert(planned_photos(before.push(b)) =~= planned_photos(before).push(mine));
            vstd::seq_lib::lemma_multiset_commutative(planned_photos(before).flatten(), mine);
        } else {
            assert(mine =~= Seq::<Photo>::empty());
            assert(mine.to_multiset() =~= Multiset::empty());
        }
    }
}

proof fn lemma_filter_none(s: Seq<Photo>)
    ensures
        s.filter(|x: Photo| false) == Seq::<Photo>::empty(),
    decreases s.len(),
{
    if s.len() > 0 {
        lemma_filter_none(s.drop_last());
        s.drop_last().lemma_filter_push(s.last(), |x: Photo| false);
        assert(s == s.drop_last().push(s.last()));
    }
}

/// Importing plans every photo of the month exactly once: the photos of all
/// batches together are the given photos. Batches for existing directories
/// hold the photos that match them and come first; the rest are clustered.
pub proof fn lemma_import_plans_every_photo_once(
    month_dir: Seq<char>,
    dirs: Seq<ExistingDir>,
    prim: Seq<bool>,
    s: Seq<Photo>,
)
    ensures
        planned_photos(spec_import_plan(month_dir, dirs, prim, s)).flatten().to_multiset()
            == s.to_multiset(),
        forall|k: int|
            0 <= k < spec_import_plan(month_dir, dirs, prim, s).len() ==> (#[trigger] spec_import_plan(
                month_dir,
                dirs,
                prim,
                s,
            )[k]).1.len() > 0,
{
    broadcast use vstd::seq_lib::group_to_multiset_ensures;
    broadcast use vstd::multiset::group_multiset_axioms;

    let n = dirs.len() as int;
    let eb = existing_batches(dirs, prim, s, n);
    let rest = s.filter(unmatched(dirs));
    let g = spec_clusters(rest);
    let nb = g.map_values(
        |g: Seq<Photo>| new_batch(spec_join(month_dir, spec_day_dir_name(g[0].1, g.last().1)), g),
    );
    lemma_existing_batches_photos(dirs, prim, s, n);
    crate::group::lemma_clusters(rest);
    assert(planned_photos(nb) =~= g);
    assert(planned_photos(eb + nb) =~= planned_photos(eb) + planned_photos(nb));
    vstd::seq_lib::lemma_flatten_concat(planned_photos(eb), planned_photos(nb));
    vstd::seq_lib::lemma_multiset_commutative(planned_photos(eb).flatten(), g.flatten());
    assert forall|x: Photo| #[trigger] taken_before(dirs, n)(x) || unmatched(dirs)(x) by {
        lemma_first_match(dirs, x.1);
    }
    lemma_filter_split(s, taken_before(dirs, n), unmatched(dirs), |y: Photo| true);
    lemma_filter_all(s);
    let plan = spec_import_plan(month_dir, dirs, prim, s);
    assert(plan == eb + nb);
    assert forall|k: int| 0 <= k < plan.len() implies (#[trigger] plan[k]).1.len() > 0 by {
        if k >= eb.len() {
            assert(plan[k] == nb[k - eb.len()]);
            assert(crate::group::is_run(g[k - eb.len()]));
        }
    }
}

/// Sort mode plans every photo exactly once, in date order.
pub proof fn lemma_sort_plans_every_photo_once(output: Seq<char>, s: Seq<Photo>)
    ensures
        planned_photos(spec_sort_plan(output, s)).flatten() == crate::group::sort_by_date(s),
        planned_photos(spec_sort_plan(output, s)).flatten().to_multiset() == s.to_multiset(),
{
    crate::group::lemma_clusters(s);
    assert(planned_photos(spec_sort_plan(output, s)) =~= spec_clusters(s));
}

/// Grouping by month puts every photo in the group of its month and in no
/// other, and no month twice.
pub proof fn lemma_months_partition(s: Seq<Photo>)
    ensures
        month_keys(s).no_duplicates(),
        forall|i: int|
            0 <= i < s.len() ==> #[trigger] month_keys(s).contains(month_of(s[i])) && s.filter(
                in_month(month_of(s[i])),
            ).contains(s[i]),
{
    lemma_month_keys(s);
    assert forall|i: int| 0 <= i < s.len() implies #[trigger] month_keys(s).contains(month_of(s[i]))
        && s.filter(in_month(month_of(s[i]))).contains(s[i]) by {
        assert(s.contains(s[i]));
        s.lemma_filter_contains(in_month(month_of(s[i])), i);
    }
}

// ---------------------------------------------------------------------------
// Carrying out a plan
// ---------------------------------------------------------------------------

/// The directory inside `root` that a file at `path` moves to.
pub open spec fn spec_dest_dir(root: Seq<char>, has_primaries: bool, path: Seq<char>) -> Seq<char> {
    match spec_file_subdir(spec_ext_of(path), has_primaries) {
        None => root,
        Some(sub) => spec_join(root, sub),
    }
}

/// The directory a file of a batch moves to, and its path there.
pub fn destination(root: &str, has_primaries: bool, path: &str) -> (r: (String, String))
    requires
        spec_file_name(path@) is Some,
    ensures
        r.0@ == spec_dest_dir(root@, has_primaries, path@),
        r.1@ == spec_join(r.0@, spec_file_name(path@).unwrap()),
{
    let ext = ext_of(path);
    let dest_dir = match file_subdir(ext.as_str(), has_primaries) {
        None => String::from_str(root),
        Some(sub) => join(root, sub.as_str()),
    };
    let name = file_name(path).unwrap();
    let dest_path = join(dest_dir.as_str(), name.as_str());
    (dest_dir, dest_path)
}

/// Whether a file is left where it is because a file of the same name and
/// the same day is already at its destination (checked for batches bound
/// for existing directories only). `existing_date` is the day of the file
/// found at the destination, if there is one and its day is known.
pub fn is_duplicate(check_duplicates: bool, existing_date: Option<Date>, date: Date) -> (r: bool)
    ensures
        r == (check_duplicates && existing_date == Some(date)),
{
    match existing_date {
        Some(d) => check_duplicates && d == date,
        None => false,
    }
}

/// What executing a plan does with one file.
#[derive(Clone, Copy, Debug, PartialEq, Eq, Structural)]
pub enum FileAction {
    /// Leave it in place: the same name and day are already at the destination.
    Skip,
    /// List the move (a dry run).
    Report,
    /// Move it.
    Move,
}

/// The action for one file of a batch: a duplicate is skipped first, then a
/// dry run only lists the move, else the file is moved.
pub fn file_action(check_duplicates: bool, existing_date: Option<Date>, date: Date, dry_run: bool) -> (r: FileAction)
    ensures
        r == if check_duplicates && existing_date == Some(date) {
            FileAction::Skip
        } else if dry_run {
            FileAction::Report
        } else {
            FileAction::Move
        },
{
    if is_duplicate(check_duplicates, existing_date, date) {
        FileAction::Skip
    } else if dry_run {
        FileAction::Report
    } else {
        FileAction::Move
    }
}

/// The day of a photo as the date source prescribes: with metadata, the
/// EXIF day when there is one and otherwise the modification day.
pub fn resolve_date(source: DateSource, exif_date: Option<Date>, modified: Option<Date>) -> (r: Option<Date>)
    ensures
        r == match source {
            DateSource::Metadata => if exif_date is Some {
                exif_date
            } else {
                modified
            },
            DateSource::Filesystem => modified,
        },
{
    match source {
        DateSource::Metadata => match exif_date {
            Some(d) => Some(d),
            None => modified,
        },
        DateSource::Filesystem => modified,
    }
}

/// What became of one file of a plan.
#[derive(Clone, Copy, Debug, PartialEq, Eq, Structural)]
pub enum FileOutcome {
    /// Listed by a dry run.
    Planned,
    /// Left in place as a duplicate.
    Skipped,
    Moved,
    Failed,
}

/// Counts of what happened to the files of a plan.
#[derive(Clone, Copy, Debug, PartialEq, Eq, Structural)]
pub struct ExecutionStats {
    pub processed: u64,
    pub moved: u64,
    pub skipped: u64,
    pub failed: u64,
}

impl ExecutionStats {
    pub fn new() -> (r: ExecutionStats)
        ensures
            r == (ExecutionStats { processed: 0, moved: 0, skipped: 0, failed: 0 }),
    {
        ExecutionStats { processed: 0, moved: 0, skipped: 0, failed: 0 }
    }

    /// Counts one file: every file is processed, and moved, skipped and
    /// failed files are also counted as such.
    pub fn record(&mut self, outcome: FileOutcome)
        requires
            old(self).processed < u64::MAX,
            old(self).moved < u64::MAX,
            old(self).skipped < u64::MAX,
            old(self).failed < u64::MAX,
        ensures
            final(self).processed == old(self).processed + 1,
            final(self).moved == old(self).moved + if outcome == FileOutcome::Moved { 1int } else { 0 },
            final(self).skipped == old(self).skipped + if outcome == FileOutcome::Skipped { 1int } else { 0 },
            final(self).failed == old(self).failed + if outcome == FileOutcome::Failed { 1int } else { 0 },
    {
        self.processed = self.processed + 1;
        match outcome {
            FileOutcome::Planned => {},
            FileOutcome::Skipped => {
                self.skipped = self.skipped + 1;
            },
            FileOutcome::Moved => {
                self.moved = self.moved + 1;
            },
            FileOutcome::Failed => {
                self.failed = self.failed + 1;
            },
        }
    }
}

/// The closing line of a run of `mode` (`sort` or `import`).
pub open spec fn spec_summary(stats: ExecutionStats, dry_run: bool, mode: Seq<char>) -> Seq<char> {
    if dry_run {
        "Dry run complete: planned "@ + decimal(stats.processed as nat) + " files for "@ + mode + "."@
    } else if stats.failed == 0 && stats.skipped == 0 {
        "Completed "@ + mode + ": moved "@ + decimal(stats.moved as nat) + " files."@
    } else {
        "Completed "@ + mode + ": moved "@ + decimal(stats.moved as nat) + ", skipped "@ + decimal(
            stats.skipped as nat,
        ) + ", failed "@ + decimal(stats.failed as nat) + "."@
    }
}

pub fn summary_message(stats: &ExecutionStats, dry_run: bool, mode: &str) -> (r: String)
    ensures
        r@ == spec_summary(*stats, dry_run, mode@),
{
    let mut r = String::new();
    if dry_run {
        push_str(&mut r, "Dry run complete: planned ");
        push_str(&mut r, decimal_string(stats.processed).as_str());
        push_str(&mut r, " files for ");
        push_str(&mut r, mode);
        push_str(&mut r, ".");
        assert(r@ =~= spec_summary(*stats, dry_run, mode@));
    } else if stats.failed == 0 && stats.skipped == 0 {
        push_str(&mut r, "Completed ");
        push_str(&mut r, mode);
        push_str(&mut r, ": moved ");
        push_str(&mut r, decimal_string(stats.moved).as_str());
        push_str(&mut r, " files.");
        assert(r@ =~= spec_summary(*stats, dry_run, mode@));
    } else {
        push_str(&mut r, "Completed ");
        push_str(&mut r, mode);
        push_str(&mut r, ": moved ");
        push_str(&mut r, decimal_string(stats.moved).as_str());
        push_str(&mut r, ", skipped ");
        push_str(&mut r, decimal_string(stats.skipped).as_str());
        push_str(&mut r, ", failed ");
        push_str(&mut r, decimal_string(stats.failed).as_str());
        push_str(&mut r, ".");
        assert(r@ =~= spec_summary(*stats, dry_run, mode@));
    }
    r
}

/// Once some photo goes to the `i`-th existing directory, the batches for
/// the first `n` directories (`n` past `i`) hold a batch for it with those
/// photos, marked as holding primaries when the directory already does.
proof fn lemma_existing_batch_for(dirs: Seq<ExistingDir>, prim: Seq<bool>, s: Seq<Photo>, i: int, n: int)
    requires
        0 <= i < n <= dirs.len(),
        prim.len() == dirs.len(),
        s.filter(goes_to(dirs, i)).len() > 0,
    ensures
        exists|k: int|
            0 <= k < existing_batches(dirs, prim, s, n).len() && (#[trigger] existing_batches(dirs, prim, s, n)[k])
                == (dirs[i].spec_path(), s.filter(goes_to(dirs, i)), prim[i] || spec_any_primary(
                s.filter(goes_to(dirs, i)),
            ), true),
    decreases n,
{
    let b = (dirs[i].spec_path(), s.filter(goes_to(dirs, i)), prim[i] || spec_any_primary(
        s.filter(goes_to(dirs, i)),
    ), true);
    let before = existing_batches(dirs, prim, s, n - 1);
    if n - 1 == i {
        assert(existing_batches(dirs, prim, s, n) == before.push(b));
        assert(existing_batches(dirs, prim, s, n)[before.len() as int] == b);
    } else {
        lemma_existing_batch_for(dirs, prim, s, i, n - 1);
        let k = choose|k: int| 0 <= k < before.len() && #[trigger] before[k] == b;
        let mine = s.filter(goes_to(dirs, n - 1));
        if mine.len() > 0 {
            let after = before.push(
                (dirs[n - 1].spec_path(), mine, prim[n - 1] || spec_any_primary(mine), true),
            );
            assert(existing_batches(dirs, prim, s, n) == after);
            assert(after[k] == b);
        } else {
            assert(existing_batches(dirs, prim, s, n) == before);
        }
    }
}

/// Importing into a day directory that already holds primary files keeps
/// the photos sent there in their RAW/sidecar places: when some photo of the
/// month goes to the `i`-th existing directory and that directory holds
/// primary files, the plan has the batch for that directory, with exactly
/// the photos that go there, marked as holding primaries.
pub proof fn lemma_import_keeps_existing_primaries(
    month_dir: Seq<char>,
    dirs: Seq<ExistingDir>,
    prim: Seq<bool>,
    s: Seq<Photo>,
    i: int,
    j: int,
)
    requires
        prim.len() == dirs.len(),
        0 <= i < dirs.len(),
        prim[i],
        0 <= j < s.len(),
        first_match(dirs, s[j].1) == Some(i),
    ensures
        exists|k: int|
            0 <= k < spec_import_plan(month_dir, dirs, prim, s).len() && {
                let b = #[trigger] spec_import_plan(month_dir, dirs, prim, s)[k];
                &&& b.0 == dirs[i].spec_path()
                &&& b.1 == s.filter(goes_to(dirs, i))
                &&& b.2
                &&& b.3
            },
{
    s.lemma_filter_contains(goes_to(dirs, i), j);
    assert(s.filter(goes_to(dirs, i)).len() > 0);
    let n = dirs.len() as int;
    lemma_existing_batch_for(dirs, prim, s, i, n);
    let eb = existing_batches(dirs, prim, s, n);
    let b = (dirs[i].spec_path(), s.filter(goes_to(dirs, i)), prim[i] || spec_any_primary(
        s.filter(goes_to(dirs, i)),
    ), true);
    let k = choose|k: int| 0 <= k < eb.len() && #[trigger] eb[k] == b;
    let plan = spec_import_plan(month_dir, dirs, prim, s);
    assert(plan[k] == eb[k]);
}

} // verus!
