//! Sorting the files of a directory into subdirectories by extension.
use vstd::prelude::*;
use crate::paths::{extension, spec_extension};
use crate::text::string_views;
use crate::text::{push_char, push_str, str_eq, to_lowercase, to_uppercase, unicode_lowercase, unicode_uppercase};

verus! {

/// The key of an extension: a dot and the extension in lowercase.
pub open spec fn ext_key(e: Seq<char>) -> Seq<char> {
    seq!['.'] + unicode_lowercase(e)
}

fn ext_key_of(e: &str) -> (r: String)
    ensures
        r@ == ext_key(e@),
{
    let mut r = String::new();
    push_char(&mut r, '.');
    let lower = to_lowercase(e);
    push_str(&mut r, lower.as_str());
    r
}

/// The index of the first `c` in `s`.
pub open spec fn first_index(s: Seq<char>, c: char) -> Option<int>
    decreases s.len(),
{
    if s.len() == 0 {
        None
    } else if s[0] == c {
        Some(0)
    } else {
        match first_index(s.drop_first(), c) {
            Some(i) => Some(i + 1),
            None => None,
        }
    }
}

/// The text before and after the first `:`.
pub open spec fn split_at_colon(s: Seq<char>) -> Option<(Seq<char>, Seq<char>)> {
    match first_index(s, ':') {
        Some(i) => Some((s.take(i), s.skip(i + 1))),
        None => None,
    }
}

/// The mappings given as `ext:DIR`: the key of each extension to its
/// directory; a later mapping of the same extension replaces an earlier one,
/// and arguments without `:` are ignored.
pub open spec fn spec_mappings(args: Seq<Seq<char>>) -> Map<Seq<char>, Seq<char>>
    decreases args.len(),
{
    if args.len() == 0 {
        Map::empty()
    } else {
        let m = spec_mappings(args.drop_last());
        match split_at_colon(args.last()) {
            Some((k, v)) => m.insert(ext_key(k), v),
            None => m,
        }
    }
}

/// The keys of the ignored extensions.
pub open spec fn spec_ignored(args: Seq<Seq<char>>) -> Set<Seq<char>> {
    Set::new(|k: Seq<char>| exists|i: int| 0 <= i < args.len() && ext_key(args[i]) == k)
}

/// Mappings from extension keys to directory names, latest last.
pub struct ExtensionMap {
    entries: Vec<(String, String)>,
}

pub open spec fn pairs_view(p: Seq<(String, String)>) -> Seq<(Seq<char>, Seq<char>)> {
    p.map_values(|e: (String, String)| (e.0@, e.1@))
}

/// The map of a list of pairs, later pairs replacing earlier ones.
pub open spec fn later_wins(p: Seq<(Seq<char>, Seq<char>)>) -> Map<Seq<char>, Seq<char>>
    decreases p.len(),
{
    if p.len() == 0 {
        Map::empty()
    } else {
        later_wins(p.drop_last()).insert(p.last().0, p.last().1)
    }
}

/// A key is mapped to the value of its last pair; a key without pair is
/// not mapped.
proof fn lemma_later_wins(p: Seq<(Seq<char>, Seq<char>)>, k: Seq<char>, i: int)
    requires
        -1 <= i < p.len(),
        forall|j: int| i < j < p.len() ==> (#[trigger] p[j]).0 != k,
    ensures
        i >= 0 && p[i].0 == k ==> later_wins(p).contains_key(k) && later_wins(p)[k] == p[i].1,
        later_wins(p).contains_key(k) == later_wins(p.take(i + 1)).contains_key(k),
        later_wins(p).contains_key(k) ==> later_wins(p)[k] == later_wins(p.take(i + 1))[k],
    decreases p.len(),
{
    if p.len() > 0 && i < p.len() - 1 {
        lemma_later_wins(p.drop_last(), k, i);
        assert(p.drop_last().take(i + 1) == p.take(i + 1));
    } else if p.len() > 0 {
        assert(p.take(i + 1) == p);
    }
}

impl View for ExtensionMap {
    type V = Map<Seq<char>, Seq<char>>;

    closed spec fn view(&self) -> Map<Seq<char>, Seq<char>> {
        later_wins(pairs_view(self.entries@))
    }
}

impl ExtensionMap {
    /// The mappings of the `ext:DIR` arguments.
    pub fn from_args(args: &Vec<String>) -> (r: ExtensionMap)
        ensures
            r@ == spec_mappings(string_views(args@)),
    {
        let mut entries: Vec<(String, String)> = Vec::new();
        let mut i: usize = 0;
        while i < args.len()
            invariant
                i <= args@.len(),
                later_wins(pairs_view(entries@)) == spec_mappings(string_views(args@.take(i as int))),
            decreases args@.len() - i,
        {
            let a = args[i].as_str();
            assert(string_views(args@.take(i + 1)).drop_last() =~= string_views(args@.take(i as int)));
            assert(string_views(args@.take(i + 1)).last() == a@);
            match split_colon(a) {
                Some((k, v)) => {
                    let key = ext_key_of(k.as_str());
                    let ghost before = entries@;
                    entries.push((key, v));
                    assert(pairs_view(entries@).drop_last() =~= pairs_view(before));
                },
                None => {},
            }
            i = i + 1;
        }
        assert(args@.take(args@.len() as int) =~= args@);
        ExtensionMap { entries }
    }

    /// The directory that files with extension key `key` go to, if mapped.
    pub fn get(&self, key: &str) -> (r: Option<String>)
        ensures
            match r {
                Some(v) => self@.contains_key(key@) && self@[key@] == v@,
                None => !self@.contains_key(key@),
            },
    {
        let ghost p = pairs_view(self.entries@);
        let mut i = self.entries.len();
        while i > 0
            invariant
                i <= self.entries@.len(),
                p == pairs_view(self.entries@),
                forall|j: int| i <= j < p.len() ==> (#[trigger] p[j]).0 != key@,
            decreases i,
        {
            if str_eq(self.entries[i - 1].0.as_str(), key) {
                proof {
                    lemma_later_wins(p, key@, i - 1);
                }
                return Some(self.entries[i - 1].1.clone());
            }
            i = i - 1;
        }
        proof {
            lemma_later_wins(p, key@, -1);
            assert(p.take(0) =~= Seq::<(Seq<char>, Seq<char>)>::empty());
        }
        None
    }
}

/// Splits `s` at its first `:`.
fn split_colon(s: &str) -> (r: Option<(String, String)>)
    ensures
        match r {
            Some((a, b)) => split_at_colon(s@) == Some((a@, b@)),
            None => split_at_colon(s@) is None,
        },
{
    let chars = crate::text::chars_of(s);
    let mut i: usize = 0;
    while i < chars.len()
        invariant
            chars@ == s@,
            i <= chars@.len(),
            forall|j: int| 0 <= j < i ==> chars@[j] != ':',
        decreases chars@.len() - i,
    {
        if chars[i] == ':' {
            proof {
                lemma_first_index(s@, ':', i as int);
            }
            let a = crate::text::string_of(&chars, 0, i);
            let b = crate::text::string_of(&chars, i + 1, chars.len());
            assert(s@.take(i as int) =~= chars@.subrange(0, i as int));
            assert(s@.skip(i + 1) =~= chars@.subrange(i + 1, chars@.len() as int));
            return Some((a, b));
        }
        i = i + 1;
    }
    proof {
        lemma_first_index(s@, ':', s@.len() as int);
    }
    None
}

proof fn lemma_first_index(s: Seq<char>, c: char, i: int)
    requires
        0 <= i <= s.len(),
        forall|j: int| 0 <= j < i ==> s[j] != c,
        i < s.len() ==> s[i] == c,
    ensures
        first_index(s, c) == if i < s.len() {
            Some(i)
        } else {
            None::<int>
        },
    decreases s.len(),
{
    if s.len() > 0 && i > 0 {
        lemma_first_index(s.drop_first(), c, i - 1);
    }
}

/// The keys of the `--ignore` arguments.
pub fn ignored_extensions(args: &Vec<String>) -> (r: Vec<String>)
    ensures
        string_views(r@).to_set() == spec_ignored(string_views(args@)),
{
    let mut r: Vec<String> = Vec::new();
    let mut i: usize = 0;
    while i < args.len()
        invariant
            i <= args@.len(),
            r@.len() == i,
            forall|j: int| 0 <= j < i ==> (#[trigger] r@[j])@ == ext_key(args@[j]@),
        decreases args@.len() - i,
    {
        r.push(ext_key_of(args[i].as_str()));
        i = i + 1;
    }
    proof {
        let a = string_views(args@);
        assert forall|k: Seq<char>| #[trigger] string_views(r@).to_set().contains(k) == spec_ignored(a).contains(k) by {
            if string_views(r@).contains(k) {
                let j = choose|j: int| 0 <= j < r@.len() && string_views(r@)[j] == k;
                assert(ext_key(a[j]) == k);
            }
            if spec_ignored(a).contains(k) {
                let j = choose|j: int| 0 <= j < a.len() && ext_key(a[j]) == k;
                assert(string_views(r@)[j] == k);
            }
        }
        assert(string_views(r@).to_set() =~= spec_ignored(a));
    }
    r
}

/// Where a file named `name` goes: the mapped directory of its extension,
/// else (unless its extension or all are ignored) the uppercased
/// extension; files without extension stay.
pub open spec fn spec_target(
    name: Seq<char>,
    map: Map<Seq<char>, Seq<char>>,
    ignored: Set<Seq<char>>,
) -> Option<Seq<char>> {
    match spec_extension(name) {
        None => None,
        Some(e) => if map.contains_key(ext_key(e)) {
            Some(map[ext_key(e)])
        } else if !ignored.contains(ext_key(e)) && !ignored.contains(".all"@) {
            Some(unicode_uppercase(e))
        } else {
            None
        },
    }
}

/// The moves of the files `names` that have a target, in their order.
pub open spec fn spec_targets(
    names: Seq<Seq<char>>,
    map: Map<Seq<char>, Seq<char>>,
    ignored: Set<Seq<char>>,
) -> Seq<(Seq<char>, Seq<char>)>
    decreases names.len(),
{
    if names.len() == 0 {
        Seq::empty()
    } else {
        let before = spec_targets(names.drop_last(), map, ignored);
        match spec_target(names.last(), map, ignored) {
            Some(t) => before.push((names.last(), t)),
            None => before,
        }
    }
}

/// Whether the files carry more than one extension (compared by key).
pub open spec fn several_extensions(names: Seq<Seq<char>>) -> bool {
    exists|i: int, j: int|
        0 <= i < names.len() && 0 <= j < names.len() && (#[trigger] spec_extension(names[i])) is Some
            && (#[trigger] spec_extension(names[j])) is Some && ext_key(
            spec_extension(names[i]).unwrap(),
        ) != ext_key(spec_extension(names[j]).unwrap())
}

/// The moves of a directory's files: none unless its files carry more than
/// one extension.
pub open spec fn spec_classify(
    names: Seq<Seq<char>>,
    map: Map<Seq<char>, Seq<char>>,
    ignored: Set<Seq<char>>,
) -> Seq<(Seq<char>, Seq<char>)> {
    if several_extensions(names) {
        spec_targets(names, map, ignored)
    } else {
        Seq::empty()
    }
}

/// The moves for the files `names` of one directory, as pairs of file name
/// and subdirectory.
pub fn classify_moves(names: &Vec<String>, map: &ExtensionMap, ignored: &Vec<String>) -> (r: Vec<(String, String)>)
    ensures
        pairs_view(r@) == spec_classify(string_views(names@), map@, string_views(ignored@).to_set()),
{
    let ghost ns = string_views(names@);
    let ghost ig = string_views(ignored@).to_set();
    let mut moves: Vec<(String, String)> = Vec::new();
    let mut first_key: Option<String> = None;
    let mut several = false;
    let all_key = ".all";
    proof {
        reveal_strlit(".all");
    }
    let ignore_all = crate::text::in_list_owned(all_key, ignored);
    let mut i: usize = 0;
    while i < names.len()
        invariant
            i <= names@.len(),
            ns == string_views(names@),
            ig == string_views(ignored@).to_set(),
            ignore_all == ig.contains(".all"@),
            pairs_view(moves@) == spec_targets(ns.take(i as int), map@, ig),
            several == several_extensions(ns.take(i as int)),
            match first_key {
                Some(k) => !several ==> forall|j: int|
                    0 <= j < i && (#[trigger] spec_extension(ns[j])) is Some ==> ext_key(
                        spec_extension(ns[j]).unwrap(),
                    ) == k@,
                None => forall|j: int| 0 <= j < i ==> (#[trigger] spec_extension(ns[j])) is None,
            },
            first_key matches Some(k) ==> exists|j: int|
                0 <= j < i && (#[trigger] spec_extension(ns[j])) is Some && ext_key(
                    spec_extension(ns[j]).unwrap(),
                ) == k@,
        decreases names@.len() - i,
    {
        let name = names[i].as_str();
        let ghost prefix = ns.take(i + 1);
        assert(prefix.drop_last() =~= ns.take(i as int));
        assert(prefix.last() == name@);
        match extension(name) {
            None => {
                proof {
                    lemma_several_push(ns.take(i as int), name@);
                }
            },
            Some(ext) => {
                let key = ext_key_of(ext.as_str());
                let ghost old_several = several;
                let ghost old_first = first_key;
                match &first_key {
                    None => {
                        first_key = Some(key.clone());
                    },
                    Some(k) => {
                        if !str_eq(k.as_str(), key.as_str()) {
                            several = true;
                        }
                    },
                }
                proof {
                    let t = ns.take(i as int);
                    lemma_several_push(t, name@);
                    assert(key@ == ext_key(spec_extension(name@).unwrap()));
                    if !old_several {
                        match old_first {
                            Some(k) => {
                                if k@ != key@ {
                                    let j = choose|j: int|
                                        0 <= j < i && (#[trigger] spec_extension(ns[j])) is Some
                                            && ext_key(spec_extension(ns[j]).unwrap()) == k@;
                                    assert(t[j] == ns[j]);
                                } else {
                                    assert forall|j: int|
                                        0 <= j < t.len() && (#[trigger] spec_extension(t[j])) is Some implies ext_key(
                                            spec_extension(t[j]).unwrap(),
                                        ) == key@ by {
                                        assert(t[j] == ns[j]);
                                    }
                                }
                            },
                            None => {
                                assert forall|j: int| 0 <= j < t.len() implies (#[trigger] spec_extension(
                                    t[j],
                                )) is None by {
                                    assert(t[j] == ns[j]);
                                }
                            },
                        }
                    }
                }
                let target = match map.get(key.as_str()) {
                    Some(dir) => Some(dir),
                    None => {
                        if !crate::text::in_list_owned(key.as_str(), ignored) && !ignore_all {
                            Some(to_uppercase(ext.as_str()))
                        } else {
                            None
                        }
                    },
                };
                match target {
                    Some(t) => {
                        let ghost before = moves@;
                        moves.push((String::from_str(name), t));
                        assert(pairs_view(moves@) =~= pairs_view(before).push((name@, t@)));
                    },
                    None => {},
                }
            },
        }
        i = i + 1;
    }
    assert(ns.take(names@.len() as int) =~= ns);
    if several {
        moves
    } else {
        Vec::new()
    }
}

/// How the "several extensions" test grows by one file.
proof fn lemma_several_push(ns: Seq<Seq<char>>, name: Seq<char>)
    ensures
        several_extensions(ns.push(name)) == (several_extensions(ns) || (spec_extension(name) is Some
            && exists|j: int|
            0 <= j < ns.len() && (#[trigger] spec_extension(ns[j])) is Some && ext_key(
                spec_extension(ns[j]).unwrap(),
            ) != ext_key(spec_extension(name).unwrap()))),
{
    let t = ns.push(name);
    if several_extensions(t) {
        let (i, j) = choose|i: int, j: int|
            0 <= i < t.len() && 0 <= j < t.len() && (#[trigger] spec_extension(t[i])) is Some && (
            #[trigger] spec_extension(t[j])) is Some && ext_key(spec_extension(t[i]).unwrap())
                != ext_key(spec_extension(t[j]).unwrap());
        if i < ns.len() && j < ns.len() {
            assert(spec_extension(ns[i]) == spec_extension(t[i]));
            assert(spec_extension(ns[j]) == spec_extension(t[j]));
        } else if i < ns.len() {
            assert(spec_extension(ns[i]) == spec_extension(t[i]));
        } else if j < ns.len() {
            assert(spec_extension(ns[j]) == spec_extension(t[j]));
        }
    }
    if several_extensions(ns) {
        let (i, j) = choose|i: int, j: int|
            0 <= i < ns.len() && 0 <= j < ns.len() && (#[trigger] spec_extension(ns[i])) is Some && (
            #[trigger] spec_extension(ns[j])) is Some && ext_key(spec_extension(ns[i]).unwrap())
                != ext_key(spec_extension(ns[j]).unwrap());
        assert(spec_extension(t[i]) == spec_extension(ns[i]));
        assert(spec_extension(t[j]) == spec_extension(ns[j]));
    }
    if spec_extension(name) is Some && exists|j: int|
        0 <= j < ns.len() && (#[trigger] spec_extension(ns[j])) is Some && ext_key(
            spec_extension(ns[j]).unwrap(),
        ) != ext_key(spec_extension(name).unwrap()) {
        let j = choose|j: int|
            0 <= j < ns.len() && (#[trigger] spec_extension(ns[j])) is Some && ext_key(
                spec_extension(ns[j]).unwrap(),
            ) != ext_key(spec_extension(name).unwrap());
        assert(spec_extension(t[j]) == spec_extension(ns[j]));
        assert(spec_extension(t[ns.len() as int]) == spec_extension(name));
    }
}

/// Every move of `spec_targets` is a file of `names` with its target.
proof fn lemma_targets_from(
    names: Seq<Seq<char>>,
    map: Map<Seq<char>, Seq<char>>,
    ignored: Set<Seq<char>>,
    j: int,
)
    requires
        0 <= j < spec_targets(names, map, ignored).len(),
    ensures
        exists|i: int|
            0 <= i < names.len() && names[i] == spec_targets(names, map, ignored)[j].0 && #[trigger] spec_target(
                names[i],
                map,
                ignored,
            ) == Some(spec_targets(names, map, ignored)[j].1),
    decreases names.len(),
{
    let before = spec_targets(names.drop_last(), map, ignored);
    if j < before.len() {
        lemma_targets_from(names.drop_last(), map, ignored, j);
        let i = choose|i: int|
            0 <= i < names.drop_last().len() && names.drop_last()[i] == before[j].0 && #[trigger] spec_target(
                names.drop_last()[i],
                map,
                ignored,
            ) == Some(before[j].1);
        assert(names[i] == names.drop_last()[i]);
        match spec_target(names.last(), map, ignored) {
            Some(t) => assert(spec_targets(names, map, ignored)[j] == before[j]),
            None => {},
        }
    } else {
        assert(spec_target(names[names.len() - 1], map, ignored) is Some);
    }
}

/// An ignored extension is compared in lowercase: a file whose extension,
/// lowercased and with a leading dot, is among the ignored keys and has no
/// mapping is never moved.
pub proof fn lemma_ignored_never_moved(
    names: Seq<Seq<char>>,
    map: Map<Seq<char>, Seq<char>>,
    ignored: Set<Seq<char>>,
    k: int,
)
    requires
        0 <= k < names.len(),
        spec_extension(names[k]) matches Some(e) && ignored.contains(seq!['.'] + unicode_lowercase(e))
            && !map.contains_key(seq!['.'] + unicode_lowercase(e)),
    ensures
        forall|j: int|
            0 <= j < spec_classify(names, map, ignored).len() ==> (#[trigger] spec_classify(names, map, ignored)[j]).0
                != names[k],
{
    assert forall|j: int| 0 <= j < spec_classify(names, map, ignored).len() implies (#[trigger] spec_classify(
        names,
        map,
        ignored,
    )[j]).0 != names[k] by {
        if several_extensions(names) {
            lemma_targets_from(names, map, ignored, j);
            let i = choose|i: int|
                0 <= i < names.len() && names[i] == spec_targets(names, map, ignored)[j].0 && #[trigger] spec_target(
                    names[i],
                    map,
                    ignored,
                ) == Some(spec_targets(names, map, ignored)[j].1);
            if names[i] == names[k] {
                assert(spec_target(names[k], map, ignored) is None);
            }
        }
    }
}

/// Every file with a target is moved to it by `spec_targets`.
proof fn lemma_targets_include(
    names: Seq<Seq<char>>,
    map: Map<Seq<char>, Seq<char>>,
    ignored: Set<Seq<char>>,
    k: int,
)
    requires
        0 <= k < names.len(),
        spec_target(names[k], map, ignored) is Some,
    ensures
        exists|j: int|
            0 <= j < spec_targets(names, map, ignored).len() && #[trigger] spec_targets(names, map, ignored)[j] == (
                names[k],
                spec_target(names[k], map, ignored).unwrap(),
            ),
    decreases names.len(),
{
    let before = spec_targets(names.drop_last(), map, ignored);
    if k < names.len() - 1 {
        lemma_targets_include(names.drop_last(), map, ignored, k);
        let j = choose|j: int|
            0 <= j < before.len() && #[trigger] before[j] == (
                names.drop_last()[k],
                spec_target(names.drop_last()[k], map, ignored).unwrap(),
            );
        assert(names.drop_last()[k] == names[k]);
        match spec_target(names.last(), map, ignored) {
            Some(t) => {
                assert(spec_targets(names, map, ignored) == before.push((names.last(), t)));
                assert(spec_targets(names, map, ignored)[j] == before[j]);
            },
            None => {
                assert(spec_targets(names, map, ignored) == before);
            },
        }
    } else {
        assert(names[k] == names.last());
        assert(spec_targets(names, map, ignored)[before.len() as int] == (
            names[k],
            spec_target(names[k], map, ignored).unwrap(),
        ));
    }
}

/// In a directory whose files carry several extensions, a file goes by the
/// lowercase key of its extension (a dot and the lowercased extension): to
/// the mapped directory when the key is mapped, else, unless the key or all
/// extensions are ignored, to the extension in capitals.
pub proof fn lemma_moved_by_lowercase_key(
    names: Seq<Seq<char>>,
    map: Map<Seq<char>, Seq<char>>,
    ignored: Set<Seq<char>>,
    k: int,
)
    requires
        0 <= k < names.len(),
        several_extensions(names),
        spec_extension(names[k]) is Some,
    ensures
        ({
            let e = spec_extension(names[k]).unwrap();
            let key = seq!['.'] + unicode_lowercase(e);
            &&& map.contains_key(key) ==> exists|j: int|
                0 <= j < spec_classify(names, map, ignored).len() && #[trigger] spec_classify(names, map, ignored)[j]
                    == (names[k], map[key])
            &&& (!map.contains_key(key) && !ignored.contains(key) && !ignored.contains(".all"@)) ==> exists|j: int|
                0 <= j < spec_classify(names, map, ignored).len() && #[trigger] spec_classify(names, map, ignored)[j]
                    == (names[k], unicode_uppercase(e))
        }),
{
    let e = spec_extension(names[k]).unwrap();
    let key = seq!['.'] + unicode_lowercase(e);
    assert(ext_key(e) == key);
    if map.contains_key(key) || (!ignored.contains(key) && !ignored.contains(".all"@)) {
        lemma_targets_include(names, map, ignored, k);
        assert(spec_classify(names, map, ignored) == spec_targets(names, map, ignored));
        let t = spec_target(names[k], map, ignored).unwrap();
        let j = choose|j: int|
            0 <= j < spec_targets(names, map, ignored).len() && #[trigger] spec_targets(names, map, ignored)[j] == (
                names[k],
                t,
            );
        assert(spec_classify(names, map, ignored)[j] == (names[k], t));
    }
}

} // verus!
