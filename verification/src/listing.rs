//! Ordering file listings by their lowercase text.
use vstd::prelude::*;
use crate::group::reversed;
use crate::text::{string_views, to_lowercase, unicode_lowercase};

verus! {

broadcast use vstd::seq_lib::group_seq_properties;

/// Lexicographic order of texts by character code.
pub open spec fn text_lt(a: Seq<char>, b: Seq<char>) -> bool
    decreases a.len(),
{
    if a.len() == 0 {
        b.len() > 0
    } else if b.len() == 0 {
        false
    } else if a[0] != b[0] {
        (a[0] as u32) < (b[0] as u32)
    } else {
        text_lt(a.drop_first(), b.drop_first())
    }
}

/// Whether `a` comes before `b` when compared in lowercase.
pub open spec fn lower_lt(a: Seq<char>, b: Seq<char>) -> bool {
    text_lt(unicode_lowercase(a), unicode_lowercase(b))
}

/// Inserts `x` after every text of `s`, read from the end, that does not
/// come after it in lowercase.
pub open spec fn insert_by_lower(s: Seq<Seq<char>>, x: Seq<char>) -> Seq<Seq<char>>
    decreases s.len(),
{
    if s.len() == 0 {
        seq![x]
    } else if lower_lt(x, s.last()) {
        insert_by_lower(s.drop_last(), x).push(s.last())
    } else {
        s.push(x)
    }
}

/// The stable sort of texts by their lowercase: texts equal in lowercase
/// keep their order.
pub open spec fn sort_by_lower(s: Seq<Seq<char>>) -> Seq<Seq<char>>
    decreases s.len(),
{
    if s.len() == 0 {
        s
    } else {
        insert_by_lower(sort_by_lower(s.drop_last()), s.last())
    }
}

fn text_less(a: &str, b: &str) -> (r: bool)
    ensures
        r == text_lt(a@, b@),
{
    let n = a.unicode_len();
    let m = b.unicode_len();
    let mut i: usize = 0;
    while i < n && i < m && a.get_char(i) == b.get_char(i)
        invariant
            n == a@.len(),
            m == b@.len(),
            i <= n,
            i <= m,
            text_lt(a@, b@) == text_lt(a@.skip(i as int), b@.skip(i as int)),
        decreases n - i,
    {
        proof {
            let x = a@.skip(i as int);
            let y = b@.skip(i as int);
            assert(x.drop_first() =~= a@.skip(i + 1));
            assert(y.drop_first() =~= b@.skip(i + 1));
        }
        i = i + 1;
    }
    if i == n {
        i < m
    } else if i == m {
        false
    } else {
        let c = a.get_char(i);
        let d = b.get_char(i);
        (c as u32) < (d as u32)
    }
}

proof fn lemma_insert_at(s: Seq<Seq<char>>, x: Seq<char>, j: int)
    requires
        0 <= j <= s.len(),
        forall|k: int| j <= k < s.len() ==> lower_lt(x, #[trigger] s[k]),
        j == 0 || !lower_lt(x, s[j - 1]),
    ensures
        insert_by_lower(s, x) == s.insert(j, x),
    decreases s.len(),
{
    if s.len() == 0 {
        assert(s.insert(j, x) =~= seq![x]);
    } else if j == s.len() {
        assert(s.insert(j, x) =~= s.push(x));
    } else {
        assert(lower_lt(x, s.last()));
        lemma_insert_at(s.drop_last(), x, j);
        assert(s.drop_last().insert(j, x).push(s.last()) =~= s.insert(j, x));
    }
}

/// Sorts texts by their lowercase, keeping the order of texts equal in
/// lowercase.
pub fn sort_by_lowercase(texts: Vec<String>) -> (r: Vec<String>)
    ensures
        string_views(r@) == sort_by_lower(string_views(texts@)),
{
    let ghost v = texts@;
    let ghost s = string_views(v);
    let n = texts.len();
    let mut rest = reversed(texts);
    let mut keys: Vec<String> = Vec::new();
    let mut r: Vec<String> = Vec::new();
    while rest.len() > 0
        invariant
            n == v.len(),
            s == string_views(v),
            rest@.len() <= n,
            rest@ == v.skip(n - rest@.len()).reverse(),
            keys@.len() == r@.len(),
            forall|k: int| 0 <= k < r@.len() ==> (#[trigger] keys@[k])@ == unicode_lowercase(r@[k]@),
            string_views(r@) == sort_by_lower(s.take(n - rest@.len())),
        decreases rest@.len(),
    {
        let ghost i = n - rest@.len();
        let x = rest.pop().unwrap();
        assert(x == v[i]);
        let key = to_lowercase(x.as_str());
        let mut j = r.len();
        while j > 0 && text_less(key.as_str(), keys[j - 1].as_str())
            invariant
                j <= r@.len(),
                keys@.len() == r@.len(),
                key@ == unicode_lowercase(x@),
                forall|k: int| 0 <= k < r@.len() ==> (#[trigger] keys@[k])@ == unicode_lowercase(r@[k]@),
                forall|k: int| j <= k < r@.len() ==> lower_lt(x@, #[trigger] r@[k]@),
            decreases j,
        {
            j = j - 1;
        }
        proof {
            let p = string_views(r@);
            assert forall|k: int| j <= k < p.len() implies lower_lt(x@, #[trigger] p[k]) by {
                assert(p[k] == r@[k]@);
            }
            if j > 0 {
                assert(p[j - 1] == r@[j - 1]@);
                assert(keys@[j - 1]@ == unicode_lowercase(r@[j - 1]@));
            }
            lemma_insert_at(p, x@, j as int);
            assert(s.take(i + 1).drop_last() =~= s.take(i));
            assert(s.take(i + 1).last() == x@);
            assert(string_views(r@.insert(j as int, x)) =~= p.insert(j as int, x@));
        }
        let ghost old_keys = keys@;
        let ghost old_r = r@;
        r.insert(j, x);
        keys.insert(j, key);
        proof {
            assert forall|k: int| 0 <= k < r@.len() implies (#[trigger] keys@[k])@ == unicode_lowercase(
                r@[k]@,
            ) by {
                if k < j {
                    assert(keys@[k] == old_keys[k]);
                    assert(r@[k] == old_r[k]);
                } else if k > j {
                    assert(keys@[k] == old_keys[k - 1]);
                    assert(r@[k] == old_r[k - 1]);
                }
            }
        }
        assert(rest@ =~= v.skip(n - rest@.len()).reverse());
    }
    assert(s.take(n as int) =~= s);
    r
}

/// `text_lt` is a strict total order.
pub proof fn lemma_text_order(a: Seq<char>, b: Seq<char>, c: Seq<char>)
    ensures
        !text_lt(a, a),
        text_lt(a, b) ==> !text_lt(b, a),
        text_lt(a, b) && text_lt(b, c) ==> text_lt(a, c),
        text_lt(a, b) || text_lt(b, a) || a == b,
    decreases a.len(),
{
    if a.len() > 0 && b.len() > 0 && a[0] != b[0] {
        vstd::utf8::char_u32_cast(a[0], a[0] as u32);
        vstd::utf8::char_u32_cast(b[0], b[0] as u32);
    }
    if a.len() > 0 && b.len() > 0 && c.len() > 0 {
        lemma_text_order(a.drop_first(), b.drop_first(), c.drop_first());
        if a[0] == b[0] && a.drop_first() == b.drop_first() {
            assert(a =~= b);
        }
    } else if a.len() > 0 && b.len() > 0 {
        lemma_text_order(a.drop_first(), b.drop_first(), b.drop_first());
        if a[0] == b[0] && a.drop_first() == b.drop_first() {
            assert(a =~= b);
        }
    } else if a.len() > 0 {
        lemma_text_order(a.drop_first(), a.drop_first(), a.drop_first());
    } else if b.len() == 0 {
        assert(a =~= b);
    }
}

/// No text comes after a later one in lowercase.
pub open spec fn sorted_by_lower(s: Seq<Seq<char>>) -> bool {
    forall|i: int, j: int| 0 <= i < j < s.len() ==> !lower_lt(#[trigger] s[j], #[trigger] s[i])
}

proof fn lemma_insert_by_lower_sorted(s: Seq<Seq<char>>, x: Seq<char>)
    requires
        sorted_by_lower(s),
    ensures
        sorted_by_lower(insert_by_lower(s, x)),
        insert_by_lower(s, x).to_multiset() == s.to_multiset().insert(x),
    decreases s.len(),
{
    broadcast use vstd::seq_lib::group_to_multiset_ensures;

    if s.len() == 0 {
        assert(seq![x] =~= Seq::<Seq<char>>::empty().push(x));
    } else if lower_lt(x, s.last()) {
        let t = s.drop_last();
        let last = s.last();
        assert(sorted_by_lower(t));
        lemma_insert_by_lower_sorted(t, x);
        let u = insert_by_lower(t, x);
        assert forall|k: int| 0 <= k < u.len() implies !lower_lt(last, #[trigger] u[k]) by {
            assert(u.to_multiset().count(u[k]) > 0);
            if u[k] == x {
                lemma_text_order(unicode_lowercase(x), unicode_lowercase(last), unicode_lowercase(x));
            } else {
                assert(t.to_multiset().count(u[k]) > 0);
                let m = choose|m: int| 0 <= m < t.len() && t[m] == u[k];
                assert(s[m] == t[m]);
                assert(!lower_lt(s[s.len() - 1], s[m]));
            }
        }
        assert forall|i: int, j: int| 0 <= i < j < u.push(last).len() implies !lower_lt(
            #[trigger] u.push(last)[j],
            #[trigger] u.push(last)[i],
        ) by {
            if j == u.len() {
                assert(!lower_lt(last, u[i]));
            } else {
                assert(!lower_lt(u[j], u[i]));
            }
        }
        assert(s == t.push(last));
    } else {
        let last = s.last();
        assert forall|i: int, j: int| 0 <= i < j < s.push(x).len() implies !lower_lt(
            #[trigger] s.push(x)[j],
            #[trigger] s.push(x)[i],
        ) by {
            if j == s.len() {
                if i < s.len() - 1 {
                    assert(!lower_lt(s[s.len() - 1], s[i]));
                }
                lemma_text_order(unicode_lowercase(x), unicode_lowercase(s[i]), unicode_lowercase(last));
                lemma_text_order(unicode_lowercase(s[i]), unicode_lowercase(last), unicode_lowercase(x));
                lemma_text_order(unicode_lowercase(last), unicode_lowercase(s[i]), unicode_lowercase(x));
            } else {
                assert(!lower_lt(s[j], s[i]));
            }
        }
    }
}

/// Sorting gives the same texts, none after a later one in lowercase.
pub proof fn lemma_sort_by_lower(s: Seq<Seq<char>>)
    ensures
        sorted_by_lower(sort_by_lower(s)),
        sort_by_lower(s).to_multiset() == s.to_multiset(),
    decreases s.len(),
{
    broadcast use vstd::seq_lib::group_to_multiset_ensures;

    if s.len() > 0 {
        lemma_sort_by_lower(s.drop_last());
        lemma_insert_by_lower_sorted(sort_by_lower(s.drop_last()), s.last());
        assert(s == s.drop_last().push(s.last()));
    }
}

} // verus!
