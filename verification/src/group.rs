//! Grouping dated photos into clusters of nearby days.
use vstd::prelude::*;
use crate::calendar::{date_le, date_less, date_lt, lemma_date_order, same_month, Date};

verus! {

broadcast use vstd::seq_lib::group_seq_properties;

/// A photo file and the day it was taken.
pub struct PhotoFile {
    pub path: String,
    pub date: Date,
}

/// Consecutive photos of one month whose adjacent days are at most two days
/// apart, with the first and last day among them.
pub struct Cluster {
    pub start: Date,
    pub end: Date,
    pub files: Vec<PhotoFile>,
}

/// A photo as a value: its path and its date.
pub type Photo = (Seq<char>, Date);

impl View for PhotoFile {
    type V = Photo;

    open spec fn view(&self) -> Photo {
        (self.path@, self.date)
    }
}

pub open spec fn photos(v: Seq<PhotoFile>) -> Seq<Photo> {
    v.map_values(|f: PhotoFile| f@)
}

// ---------------------------------------------------------------------------
// Sorting by date
// ---------------------------------------------------------------------------

/// Inserts `x` after every photo of `s`, read from the end, that is not
/// later than `x`.
pub open spec fn insert_by_date(s: Seq<Photo>, x: Photo) -> Seq<Photo>
    decreases s.len(),
{
    if s.len() == 0 {
        seq![x]
    } else if date_lt(x.1, s.last().1) {
        insert_by_date(s.drop_last(), x).push(s.last())
    } else {
        s.push(x)
    }
}

/// The stable sort of `s` by date: photos of the same day keep their order.
pub open spec fn sort_by_date(s: Seq<Photo>) -> Seq<Photo>
    decreases s.len(),
{
    if s.len() == 0 {
        s
    } else {
        insert_by_date(sort_by_date(s.drop_last()), s.last())
    }
}

pub open spec fn sorted_by_date(s: Seq<Photo>) -> bool {
    forall|i: int, j: int| 0 <= i < j < s.len() ==> date_le(#[trigger] s[i].1, #[trigger] s[j].1)
}

/// Inserting before a suffix of later photos is inserting at its start.
proof fn lemma_insert_at(s: Seq<Photo>, x: Photo, j: int)
    requires
        0 <= j <= s.len(),
        forall|k: int| j <= k < s.len() ==> date_lt(x.1, #[trigger] s[k].1),
        j == 0 || !date_lt(x.1, s[j - 1].1),
    ensures
        insert_by_date(s, x) == s.insert(j, x),
    decreases s.len(),
{
    if s.len() == 0 {
        assert(s.insert(j, x) =~= seq![x]);
    } else if j == s.len() {
        assert(s.insert(j, x) =~= s.push(x));
    } else {
        assert(date_lt(x.1, s.last().1));
        lemma_insert_at(s.drop_last(), x, j);
        assert(s.drop_last().insert(j, x).push(s.last()) =~= s.insert(j, x));
    }
}

/// Inserting keeps a sorted sequence sorted and adds exactly `x`.
proof fn lemma_insert_sorted(s: Seq<Photo>, x: Photo)
    requires
        sorted_by_date(s),
    ensures
        sorted_by_date(insert_by_date(s, x)),
        insert_by_date(s, x).to_multiset() == s.to_multiset().insert(x),
        insert_by_date(s, x).len() == s.len() + 1,
    decreases s.len(),
{
    if s.len() == 0 {
        assert(seq![x] =~= Seq::<Photo>::empty().push(x));
    } else if date_lt(x.1, s.last().1) {
        let t = s.drop_last();
        assert(sorted_by_date(t));
        lemma_insert_sorted(t, x);
        let u = insert_by_date(t, x);
        assert forall|k: int| 0 <= k < u.len() implies date_le(#[trigger] u[k].1, s.last().1) by {
            assert(u.to_multiset().count(u[k]) > 0);
            assert(t.to_multiset().insert(x).count(u[k]) > 0);
            if u[k] != x {
                assert(t.to_multiset().count(u[k]) > 0);
                let m = choose|m: int| 0 <= m < t.len() && t[m] == u[k];
                assert(s[m] == t[m]);
                assert(date_le(s[m].1, s[s.len() - 1].1));
            }
        }
        assert forall|i: int, j: int| 0 <= i < j < u.push(s.last()).len() implies date_le(
            #[trigger] u.push(s.last())[i].1,
            #[trigger] u.push(s.last())[j].1,
        ) by {
            if j == u.len() {
                assert(date_le(u[i].1, s.last().1));
            } else {
                assert(date_le(u[i].1, u[j].1));
            }
        }
        assert(s == t.push(s.last()));
    } else {
        assert forall|i: int, j: int| 0 <= i < j < s.push(x).len() implies date_le(
            #[trigger] s.push(x)[i].1,
            #[trigger] s.push(x)[j].1,
        ) by {
            if j == s.len() {
                lemma_date_order(x.1, s.last().1, s[i].1);
                if i < s.len() - 1 {
                    assert(date_le(s[i].1, s[s.len() - 1].1));
                    lemma_date_order(s[i].1, s.last().1, x.1);
                }
            } else {
                assert(date_le(s[i].1, s[j].1));
            }
        }
    }
}

/// Sorting gives a sequence ordered by date that holds exactly the photos
/// it was given.
pub proof fn lemma_sort_by_date(s: Seq<Photo>)
    ensures
        sorted_by_date(sort_by_date(s)),
        sort_by_date(s).to_multiset() == s.to_multiset(),
        sort_by_date(s).len() == s.len(),
    decreases s.len(),
{
    if s.len() > 0 {
        lemma_sort_by_date(s.drop_last());
        lemma_insert_sorted(sort_by_date(s.drop_last()), s.last());
        assert(s == s.drop_last().push(s.last()));
    }
}

/// The photos of one day, in their order.
pub open spec fn of_day(s: Seq<Photo>, d: Date) -> Seq<Photo> {
    s.filter(|p: Photo| p.1 == d)
}

/// Inserting a photo adds it after the photos of its day, and leaves the
/// photos of every other day as they were.
proof fn lemma_insert_of_day(t: Seq<Photo>, x: Photo, d: Date)
    ensures
        of_day(insert_by_date(t, x), d) == if x.1 == d {
            of_day(t, d).push(x)
        } else {
            of_day(t, d)
        },
    decreases t.len(),
{
    reveal(Seq::filter);
    if t.len() == 0 {
        assert(seq![x].drop_last() =~= t);
    } else if date_lt(x.1, t.last().1) {
        let u = insert_by_date(t.drop_last(), x);
        lemma_insert_of_day(t.drop_last(), x, d);
        assert(u.push(t.last()).drop_last() =~= u);
    } else {
        assert(t.push(x).drop_last() =~= t);
    }
}

/// Sorting by date is stable: the photos of each day come out in the order
/// they were given.
pub proof fn lemma_sort_stable(s: Seq<Photo>, d: Date)
    ensures
        of_day(sort_by_date(s), d) == of_day(s, d),
    decreases s.len(),
{
    reveal(Seq::filter);
    if s.len() > 0 {
        lemma_sort_stable(s.drop_last(), d);
        lemma_insert_of_day(sort_by_date(s.drop_last()), s.last(), d);
    }
}

/// The sequence in reverse order, taking ownership of the items.
pub fn reversed<T>(v: Vec<T>) -> (r: Vec<T>)
    ensures
        r@ == v@.reverse(),
{
    let mut v = v;
    let ghost orig = v@;
    let mut r: Vec<T> = Vec::new();
    while v.len() > 0
        invariant
            v@ == orig.take(v@.len() as int),
            r@ == orig.skip(v@.len() as int).reverse(),
            v@.len() <= orig.len(),
        decreases v@.len(),
    {
        let x = v.pop().unwrap();
        r.push(x);
        assert(r@ =~= orig.skip(v@.len() as int).reverse());
        assert(v@ =~= orig.take(v@.len() as int));
    }
    assert(orig.skip(0) =~= orig);
    r
}

/// Sorts photos by date, keeping the order of photos of the same day.
pub fn sort_photos(files: Vec<PhotoFile>) -> (r: Vec<PhotoFile>)
    ensures
        photos(r@) == sort_by_date(photos(files@)),
{
    let ghost s = files@;
    let n = files.len();
    let mut rest = reversed(files);
    let mut r: Vec<PhotoFile> = Vec::new();
    while rest.len() > 0
        invariant
            n == s.len(),
            rest@.len() <= n,
            rest@ == s.skip(n - rest@.len()).reverse(),
            photos(r@) == sort_by_date(photos(s.take(n - rest@.len()))),
        decreases rest@.len(),
    {
        let ghost i = n - rest@.len();
        let x = rest.pop().unwrap();
        assert(x == s[i]);
        let mut j = r.len();
        while j > 0 && date_less(&x.date, &r[j - 1].date)
            invariant
                j <= r@.len(),
                forall|k: int| j <= k < r@.len() ==> date_lt(x.date, #[trigger] r@[k].date),
            decreases j,
        {
            j = j - 1;
        }
        proof {
            let p = photos(r@);
            assert forall|k: int| j <= k < p.len() implies date_lt(x@.1, #[trigger] p[k].1) by {
                assert(p[k] == r@[k]@);
            }
            if j > 0 {
                assert(p[j - 1] == r@[j - 1]@);
            }
            lemma_insert_at(p, x@, j as int);
            assert(photos(s.take(i + 1)).drop_last() =~= photos(s.take(i)));
            assert(photos(s.take(i + 1)).last() == x@);
            assert(photos(r@.insert(j as int, x)) =~= p.insert(j as int, x@));
        }
        r.insert(j, x);
        assert(rest@ =~= s.skip(n - rest@.len()).reverse());
    }
    assert(s.take(n as int) =~= s);
    r
}

// ---------------------------------------------------------------------------
// Runs of nearby days
// ---------------------------------------------------------------------------

/// Whether a photo of day `b` joins the group whose last photo is of day
/// `a`: both in the same month and `b` at most two days after `a`.
pub open spec fn joins(a: Date, b: Date) -> bool {
    same_month(a, b) && b.d() - a.d() <= 2
}

/// Splits `s` into its maximal runs in which each photo joins the previous.
pub open spec fn runs(s: Seq<Photo>) -> Seq<Seq<Photo>>
    decreases s.len(),
{
    if s.len() == 0 {
        Seq::empty()
    } else if s.len() == 1 {
        seq![s]
    } else {
        let g = runs(s.drop_last());
        if joins(s[s.len() - 2].1, s.last().1) {
            g.update(g.len() - 1, g.last().push(s.last()))
        } else {
            g.push(seq![s.last()])
        }
    }
}

/// The clusters of a set of photos: the runs of the photos sorted by date.
pub open spec fn spec_clusters(s: Seq<Photo>) -> Seq<Seq<Photo>> {
    runs(sort_by_date(s))
}

/// The clusters `r` hold the groups `g`, each with its first and last day.
pub open spec fn clusters_match(r: Seq<Cluster>, g: Seq<Seq<Photo>>) -> bool {
    &&& r.len() == g.len()
    &&& forall|i: int|
        0 <= i < r.len() ==> {
            &&& photos((#[trigger] r[i]).files@) == g[i]
            &&& g[i].len() > 0
            &&& r[i].start == g[i][0].1
            &&& r[i].end == g[i].last().1
        }
}

proof fn lemma_runs_nonempty(s: Seq<Photo>)
    ensures
        s.len() > 0 <==> runs(s).len() > 0,
        forall|k: int| 0 <= k < runs(s).len() ==> (#[trigger] runs(s)[k]).len() > 0,
        s.len() > 0 ==> runs(s).last().last() == s.last(),
    decreases s.len(),
{
    if s.len() > 1 {
        lemma_runs_nonempty(s.drop_last());
    }
}

/// Photo `j` of `g` joins the photo before it.
pub open spec fn joins_previous(g: Seq<Photo>, j: int) -> bool {
    joins(g[j - 1].1, g[j].1)
}

/// A run: non-empty, each photo joining the one before it, all of one month.
pub open spec fn is_run(g: Seq<Photo>) -> bool {
    &&& g.len() > 0
    &&& forall|j: int| 0 < j < g.len() ==> #[trigger] joins_previous(g, j)
    &&& forall|j: int| 0 <= j < g.len() ==> same_month(g[0].1, #[trigger] g[j].1)
}

/// The first photo of group `k` joins the last photo of group `k - 1`.
pub open spec fn joins_previous_group(g: Seq<Seq<Photo>>, k: int) -> bool {
    joins(g[k - 1].last().1, g[k][0].1)
}

/// Splitting into runs keeps every photo in order, each group is a run, and
/// no group could be extended by the first photo of the next one.
pub proof fn lemma_runs(s: Seq<Photo>)
    ensures
        runs(s).flatten() == s,
        forall|k: int| 0 <= k < runs(s).len() ==> is_run(#[trigger] runs(s)[k]),
        forall|k: int| 0 < k < runs(s).len() ==> !#[trigger] joins_previous_group(runs(s), k),
    decreases s.len(),
{
    broadcast use Seq::lemma_flatten_push;

    if s.len() == 0 {
    } else if s.len() == 1 {
        assert(runs(s) == seq![s]);
        seq![s].lemma_flatten_singleton();
        assert(is_run(s)) by {
            assert(same_month(s[0].1, s[0].1));
        }
    } else {
        let t = s.drop_last();
        let x = s.last();
        let g = runs(t);
        lemma_runs(t);
        lemma_runs_nonempty(t);
        assert(g.last().last() == s[s.len() - 2]);
        assert(g == g.drop_last().push(g.last()));
        if joins(s[s.len() - 2].1, x.1) {
            let last = g.last().push(x);
            let h = g.update(g.len() - 1, last);
            assert(h == g.drop_last().push(last));
            assert(h.flatten() == g.drop_last().flatten() + last);
            assert(g.flatten() == g.drop_last().flatten() + g.last());
            assert(g.drop_last().flatten() + last =~= (g.drop_last().flatten() + g.last()).push(x));
            assert(t.push(x) =~= s);
            assert(h.flatten() =~= s);
            assert(is_run(last)) by {
                assert(is_run(g.last()));
                assert forall|j: int| 0 < j < last.len() implies #[trigger] joins_previous(last, j) by {
                    if j < last.len() - 1 {
                        assert(joins_previous(g.last(), j));
                    }
                }
                assert forall|j: int| 0 <= j < last.len() implies same_month(
                    last[0].1,
                    #[trigger] last[j].1,
                ) by {
                    if j == last.len() - 1 {
                        assert(same_month(g.last()[0].1, g.last().last().1));
                        lemma_date_order(last[0].1, g.last().last().1, x.1);
                    } else {
                        assert(same_month(g.last()[0].1, g.last()[j].1));
                    }
                }
            }
            assert forall|k: int| 0 <= k < h.len() implies is_run(#[trigger] h[k]) by {
                if k < h.len() - 1 {
                    assert(is_run(g[k]));
                }
            }
            assert forall|k: int| 0 < k < h.len() implies !#[trigger] joins_previous_group(h, k) by {
                assert(!joins_previous_group(g, k));
                if k == h.len() - 1 {
                    assert(h[k][0] == g[k][0]);
                }
            }
        } else {
            let h = g.push(seq![x]);
            assert(h.flatten() == g.flatten() + seq![x]);
            assert(h.flatten() =~= s);
            assert forall|k: int| 0 <= k < h.len() implies is_run(#[trigger] h[k]) by {
                if k < h.len() - 1 {
                    assert(is_run(g[k]));
                } else {
                    assert(same_month(x.1, x.1));
                }
            }
            assert forall|k: int| 0 < k < h.len() implies !#[trigger] joins_previous_group(h, k) by {
                if k < h.len() - 1 {
                    assert(!joins_previous_group(g, k));
                }
            }
        }
    }
}

/// What clustering promises for any photos: every photo is in exactly one
/// cluster, clusters follow each other by date, each cluster is a run of one
/// month from its first to its last day, and a new cluster starts only where
/// the next photo is in another month or more than two days later.
pub proof fn lemma_clusters(s: Seq<Photo>)
    ensures
        spec_clusters(s).flatten() == sort_by_date(s),
        spec_clusters(s).flatten().to_multiset() == s.to_multiset(),
        sorted_by_date(spec_clusters(s).flatten()),
        forall|k: int|
            0 <= k < spec_clusters(s).len() ==> {
                &&& is_run(#[trigger] spec_clusters(s)[k])
                &&& date_le(spec_clusters(s)[k][0].1, spec_clusters(s)[k].last().1)
            },
        forall|k: int|
            0 < k < spec_clusters(s).len() ==> !#[trigger] joins_previous_group(spec_clusters(s), k),
{
    let t = sort_by_date(s);
    lemma_sort_by_date(s);
    lemma_runs(t);
    let g = runs(t);
    assert forall|k: int| 0 <= k < g.len() implies date_le(g[k][0].1, (#[trigger] g[k]).last().1) by {
        assert(is_run(g[k]));
        lemma_run_ordered(g, k);
    }
}

/// Within a sorted sequence split into groups, each group's first photo is
/// not later than its last.
proof fn lemma_run_ordered(g: Seq<Seq<Photo>>, k: int)
    requires
        sorted_by_date(g.flatten()),
        0 <= k < g.len(),
        g[k].len() > 0,
    ensures
        date_le(g[k][0].1, g[k].last().1),
{
    let a = g.take(k);
    let b = g.skip(k);
    assert(g == a + b);
    vstd::seq_lib::lemma_flatten_concat(a, b);
    assert(b.flatten() == b[0] + b.drop_first().flatten());
    assert(b[0] == g[k]);
    let off: int = a.flatten().len() as int;
    let f = g.flatten();
    assert(f[off] == g[k][0]);
    assert(f[off + g[k].len() - 1] == g[k].last());
    if g[k].len() > 1 {
        assert(date_le(f[off].1, f[off + g[k].len() - 1].1));
    }
}

fn finalize(files: Vec<PhotoFile>) -> (c: Cluster)
    requires
        files@.len() > 0,
    ensures
        c.files@ == files@,
        c.start == files@[0].date,
        c.end == files@.last().date,
{
    let start = files[0].date;
    let end = files[files.len() - 1].date;
    Cluster { start, end, files }
}

/// Groups photos by date: sorts them by day and starts a new cluster
/// wherever a photo is not in the month of the previous one or more than two
/// days after it.
pub fn cluster_by_date(files: Vec<PhotoFile>) -> (r: Vec<Cluster>)
    ensures
        clusters_match(r@, spec_clusters(photos(files@))),
{
    let ghost input = photos(files@);
    if files.len() == 0 {
        assert(input.len() == 0);
        return Vec::new();
    }
    let sorted = sort_photos(files);
    let ghost s = sorted@;
    let ghost n = s.len();
    let mut rest = reversed(sorted);
    let mut clusters: Vec<Cluster> = Vec::new();
    let mut current: Vec<PhotoFile> = Vec::new();
    while rest.len() > 0
        invariant
            n == s.len(),
            photos(s) == sort_by_date(input),
            rest@.len() <= n,
            rest@ == s.skip(n - rest@.len()).reverse(),
            rest@.len() == n ==> current@.len() == 0 && clusters@.len() == 0,
            rest@.len() < n ==> {
                &&& current@.len() > 0
                &&& current@.last() == s[n - rest@.len() - 1]
                &&& clusters_match(clusters@, runs(photos(s.take(n - rest@.len()))).drop_last())
                &&& photos(current@) == runs(photos(s.take(n - rest@.len()))).last()
            },
        decreases rest@.len(),
    {
        let ghost i = n - rest@.len();
        let file = rest.pop().unwrap();
        assert(file == s[i]);
        let ghost prefix = photos(s.take(i + 1));
        proof {
            assert(prefix.drop_last() =~= photos(s.take(i)));
            assert(prefix.last() == file@);
            lemma_runs_nonempty(prefix);
            lemma_runs_nonempty(photos(s.take(i)));
        }
        if current.len() == 0 {
            current.push(file);
            proof {
                assert(prefix.len() == 1);
                assert(runs(prefix) == seq![prefix]);
                assert(photos(current@) =~= prefix);
                assert(runs(prefix).drop_last() =~= Seq::<Seq<Photo>>::empty());
            }
        } else {
            let last_date = current[current.len() - 1].date;
            let gap = file.date.days_since(&last_date);
            let month_matches = file.date.year() == last_date.year() && file.date.month()
                == last_date.month();
            proof {
                assert(prefix[prefix.len() - 2] == s[i - 1]@);
            }
            if month_matches && gap <= 2 {
                proof {
                    assert(joins(prefix[prefix.len() - 2].1, prefix.last().1));
                }
                current.push(file);
                proof {
                    let g = runs(photos(s.take(i)));
                    assert(runs(prefix) == g.update(g.len() - 1, g.last().push(file@)));
                    assert(runs(prefix).drop_last() =~= g.drop_last());
                    assert(photos(current@) =~= g.last().push(file@));
                }
            } else {
                proof {
                    assert(!joins(prefix[prefix.len() - 2].1, prefix.last().1));
                }
                let mut done: Vec<PhotoFile> = Vec::new();
                std::mem::swap(&mut done, &mut current);
                let ghost g = runs(photos(s.take(i)));
                let c = finalize(done);
                clusters.push(c);
                current.push(file);
                proof {
                    assert(runs(prefix) == g.push(seq![file@]));
                    assert(runs(prefix).drop_last() =~= g);
                    assert(photos(current@) =~= seq![file@]);
                    assert(g == g.drop_last().push(g.last()));
                    assert forall|k: int| 0 <= k < clusters@.len() implies {
                        &&& photos((#[trigger] clusters@[k]).files@) == g[k]
                        &&& g[k].len() > 0
                        &&& clusters@[k].start == g[k][0].1
                        &&& clusters@[k].end == g[k].last().1
                    } by {
                        if k == clusters@.len() - 1 {
                            assert(photos(c.files@)[0] == c.files@[0]@);
                            assert(photos(c.files@).last() == c.files@.last()@);
                        } else {
                            assert(g.drop_last()[k] == g[k]);
                        }
                    }
                }
            }
        }
        assert(rest@ =~= s.skip(n - rest@.len()).reverse());
    }
    proof {
        assert(s.take(n as int) =~= s);
        lemma_runs_nonempty(photos(s));
    }
    let ghost g = runs(photos(s));
    let c = finalize(current);
    clusters.push(c);
    proof {
        assert(g == g.drop_last().push(g.last()));
        assert forall|k: int| 0 <= k < clusters@.len() implies {
            &&& photos((#[trigger] clusters@[k]).files@) == g[k]
            &&& g[k].len() > 0
            &&& clusters@[k].start == g[k][0].1
            &&& clusters@[k].end == g[k].last().1
        } by {
            if k == clusters@.len() - 1 {
                assert(photos(c.files@)[0] == c.files@[0]@);
                assert(photos(c.files@).last() == c.files@.last()@);
            } else {
                assert(g.drop_last()[k] == g[k]);
            }
        }
    }
    clusters
}

} // verus!
