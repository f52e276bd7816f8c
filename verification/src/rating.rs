//! Star ratings kept in file names: `fish.jpg` rated three stars is
//! `fish_★★★☆☆.jpg`. The rating suffix and the extension are both ignored when
//! files are matched by name.
use vstd::prelude::*;
use crate::paths::{
    file_name, last_index, last_index_exec, lemma_join_name, name_extension, name_stem, parent,
    spec_file_name, spec_join, spec_parent, valid_component, spec_strip_prefix, spec_with_file_name, strip_prefix, with_file_name,
};
use crate::text::{
    chars_of, decimal, decimal_string, push_char, push_str, string_of, string_views, to_lowercase,
    unicode_lowercase,
};

verus! {

pub const FILLED_STAR: char = '\u{2605}';

pub const EMPTY_STAR: char = '\u{2606}';

pub const MAX_RATING: u8 = 5;

// ---------------------------------------------------------------------------
// Specification
// ---------------------------------------------------------------------------

pub open spec fn min_rating(r: nat) -> nat {
    if r > 5 {
        5
    } else {
        r
    }
}

/// Five stars, the first `min(r, 5)` filled.
pub open spec fn stars(r: nat) -> Seq<char> {
    Seq::new(min_rating(r), |i: int| FILLED_STAR) + Seq::new(
        (5 - min_rating(r)) as nat,
        |i: int| EMPTY_STAR,
    )
}

pub open spec fn is_star(c: char) -> bool {
    c == FILLED_STAR || c == EMPTY_STAR
}

pub open spec fn count_filled(s: Seq<char>) -> nat
    decreases s.len(),
{
    if s.len() == 0 {
        0
    } else {
        count_filled(s.drop_last()) + if s.last() == FILLED_STAR {
            1nat
        } else {
            0nat
        }
    }
}

/// A rating suffix is exactly five stars; its rating is the number filled.
pub open spec fn spec_parse_rating_suffix(s: Seq<char>) -> Option<u8> {
    if s.len() == 5 && forall|i: int| 0 <= i < 5 ==> #[trigger] is_star(s[i]) {
        Some(count_filled(s) as u8)
    } else {
        None
    }
}

/// Splits `stem` at its last `_` when the text after it is a rating suffix.
pub open spec fn spec_split_rating_suffix(stem: Seq<char>) -> (Seq<char>, Option<u8>) {
    match last_index(stem, '_') {
        None => (stem, None),
        Some(i) => match spec_parse_rating_suffix(stem.subrange(i + 1, stem.len() as int)) {
            Some(r) => (stem.subrange(0, i), Some(r)),
            None => (stem, None),
        },
    }
}

/// A file name split at its last `.`, when the text before it is not empty.
pub open spec fn spec_split_file_name(name: Seq<char>) -> (Seq<char>, Option<Seq<char>>) {
    (name_stem(name), name_extension(name))
}

pub open spec fn spec_display_title(stem: Seq<char>, ext: Option<Seq<char>>) -> Seq<char> {
    match ext {
        Some(e) => stem + seq!['.'] + e,
        None => stem,
    }
}

/// The stem with a rating suffix.
pub open spec fn rated_stem(stem: Seq<char>, rating: nat) -> Seq<char> {
    stem + seq!['_'] + stars(rating)
}

pub open spec fn spec_rated_file_name(stem: Seq<char>, ext: Option<Seq<char>>, rating: nat) -> Seq<
    char,
> {
    spec_display_title(rated_stem(stem, rating), ext)
}

/// The name of a file without rating suffix and extension, its extension and
/// its rating.
pub open spec fn name_parts(name: Seq<char>) -> (Seq<char>, Option<Seq<char>>, Option<u8>) {
    let (stem, ext) = spec_split_file_name(name);
    let (original, rating) = spec_split_rating_suffix(stem);
    (original, ext, rating)
}

/// The file name of a path, or nothing.
pub open spec fn file_name_or_empty(path: Seq<char>) -> Seq<char> {
    match spec_file_name(path) {
        Some(n) => n,
        None => Seq::empty(),
    }
}

/// How a file is listed: its path relative to the root (or the whole path),
/// with the rating suffix removed from the file name.
pub open spec fn spec_display_path(root: Seq<char>, path: Seq<char>, title: Seq<char>) -> Seq<
    char,
> {
    let relative = match spec_strip_prefix(path, root) {
        Some(r) => r,
        None => path,
    };
    match spec_parent(relative) {
        None => title,
        Some(p) => if p.len() == 0 {
            title
        } else {
            spec_with_file_name(relative, title)
        },
    }
}

/// The key under which a name is matched: its Unicode lowercase.
pub open spec fn name_key(original_stem: Seq<char>) -> Seq<char> {
    unicode_lowercase(original_stem)
}

// ---------------------------------------------------------------------------
// Names
// ---------------------------------------------------------------------------

/// Five stars for `rating` (clamped to 5).
pub fn rating_to_stars(rating: u8) -> (r: String)
    ensures
        r@ == stars(rating as nat),
{
    let filled: u8 = if rating > MAX_RATING {
        MAX_RATING
    } else {
        rating
    };
    let mut r = String::new();
    let mut i: u8 = 0;
    while i < 5
        invariant
            filled == min_rating(rating as nat),
            i <= 5,
            r@ == stars(rating as nat).take(i as int),
        decreases 5 - i,
    {
        if i < filled {
            push_char(&mut r, FILLED_STAR);
        } else {
            push_char(&mut r, EMPTY_STAR);
        }
        i = i + 1;
        assert(r@ =~= stars(rating as nat).take(i as int));
    }
    assert(stars(rating as nat).take(5) =~= stars(rating as nat));
    r
}

/// The rating of a suffix of exactly five stars.
pub fn parse_rating_suffix(suffix: &str) -> (r: Option<u8>)
    ensures
        r == spec_parse_rating_suffix(suffix@),
{
    let chars = chars_of(suffix);
    if chars.len() != 5 {
        return None;
    }
    let mut filled: u8 = 0;
    let mut i: usize = 0;
    while i < 5
        invariant
            chars@ == suffix@,
            chars@.len() == 5,
            i <= 5,
            filled as nat == count_filled(chars@.take(i as int)),
            filled <= i,
            forall|j: int| 0 <= j < i ==> #[trigger] is_star(chars@[j]),
        decreases 5 - i,
    {
        let c = chars[i];
        assert(chars@.take(i + 1).drop_last() =~= chars@.take(i as int));
        if c == FILLED_STAR {
            filled = filled + 1;
        } else if c != EMPTY_STAR {
            assert(!is_star(chars@[i as int]));
            return None;
        }
        i = i + 1;
    }
    assert(chars@.take(5) =~= chars@);
    Some(filled)
}

/// Splits a rating suffix off a stem.
pub fn split_rating_suffix(stem: &str) -> (r: (String, Option<u8>))
    ensures
        (r.0@, r.1) == spec_split_rating_suffix(stem@),
{
    let chars = chars_of(stem);
    match last_index_exec(&chars, '_') {
        None => (String::from_str(stem), None),
        Some(i) => {
            let n = chars.len();
            let suffix = string_of(&chars, i + 1, n);
            match parse_rating_suffix(suffix.as_str()) {
                Some(rating) => (string_of(&chars, 0, i), Some(rating)),
                None => (String::from_str(stem), None),
            }
        },
    }
}

/// Splits a file name into stem and extension at its last `.`.
pub fn split_file_name(file_name: &str) -> (r: (String, Option<String>))
    ensures
        r.0@ == spec_split_file_name(file_name@).0,
        match r.1 {
            Some(e) => spec_split_file_name(file_name@).1 == Some(e@),
            None => spec_split_file_name(file_name@).1 is None,
        },
{
    (crate::paths::stem_of_name(file_name), crate::paths::extension_of_name(file_name))
}

/// `stem.ext`, or `stem` without an extension.
pub fn build_display_title(stem: &str, extension: Option<&str>) -> (r: String)
    ensures
        r@ == spec_display_title(
            stem@,
            match extension {
                Some(e) => Some(e@),
                None => None,
            },
        ),
{
    match extension {
        Some(e) => {
            let mut r = String::from_str(stem);
            push_char(&mut r, '.');
            push_str(&mut r, e);
            r
        },
        None => String::from_str(stem),
    }
}

/// The file name that carries `rating`: `stem_★★☆☆☆.ext`.
pub fn build_rated_file_name(stem: &str, extension: Option<&str>, rating: u8) -> (r: String)
    ensures
        r@ == spec_rated_file_name(
            stem@,
            match extension {
                Some(e) => Some(e@),
                None => None,
            },
            rating as nat,
        ),
{
    let mut rated = String::from_str(stem);
    push_char(&mut rated, '_');
    let s = rating_to_stars(rating);
    push_str(&mut rated, s.as_str());
    build_display_title(rated.as_str(), extension)
}

/// The key under which names are matched.
pub fn normalized_name_key(name: &str) -> (r: String)
    ensures
        r@ == name_key(name@),
{
    to_lowercase(name)
}

// ---------------------------------------------------------------------------
// Entries
// ---------------------------------------------------------------------------

/// An image file with the parts of its name.
pub struct ImageEntry {
    pub path: String,
    pub display_path: String,
    pub display_title: String,
    pub original_stem: String,
    pub extension: Option<String>,
    pub rating: Option<u8>,
}

pub open spec fn opt_view(o: Option<String>) -> Option<Seq<char>> {
    match o {
        Some(s) => Some(s@),
        None => None,
    }
}

impl ImageEntry {
    /// What an entry for `path` listed under `root` holds.
    pub open spec fn describes(self, root: Seq<char>, path: Seq<char>) -> bool {
        let (original, ext, rating) = name_parts(file_name_or_empty(path));
        let title = spec_display_title(original, ext);
        &&& self.path@ == path
        &&& self.original_stem@ == original
        &&& opt_view(self.extension) == ext
        &&& self.rating == rating
        &&& self.display_title@ == title
        &&& self.display_path@ == spec_display_path(root, path, title)
    }

    /// Reads the name parts of `path`, listed under `root`.
    pub fn from_path(root: &str, path: String) -> (e: ImageEntry)
        ensures
            e.describes(root@, path@),
    {
        let name = match file_name(path.as_str()) {
            Some(n) => n,
            None => String::new(),
        };
        let (stem, extension) = split_file_name(name.as_str());
        let (original_stem, rating) = split_rating_suffix(stem.as_str());
        let display_title = match &extension {
            Some(e) => build_display_title(original_stem.as_str(), Some(e.as_str())),
            None => build_display_title(original_stem.as_str(), None),
        };
        let relative = match strip_prefix(path.as_str(), root) {
            Some(r) => r,
            None => path.clone(),
        };
        let display_path = match parent(relative.as_str()) {
            None => display_title.clone(),
            Some(p) => {
                if p.as_str().unicode_len() == 0 {
                    display_title.clone()
                } else {
                    with_file_name(relative.as_str(), display_title.as_str())
                }
            },
        };
        ImageEntry { path, display_path, display_title, original_stem, extension, rating }
    }

    /// The stars of the rating, or `unrated`.
    pub fn rating_label(&self) -> (r: String)
        ensures
            r@ == match self.rating {
                Some(x) => stars(x as nat),
                None => "unrated"@,
            },
    {
        match self.rating {
            Some(x) => rating_to_stars(x),
            None => String::from_str("unrated"),
        }
    }

    /// The path of this file once it carries `rating`.
    pub fn rated_path(&self, rating: u8) -> (r: String)
        ensures
            r@ == spec_with_file_name(
                self.path@,
                spec_rated_file_name(self.original_stem@, opt_view(self.extension), rating as nat),
            ),
    {
        let name = match &self.extension {
            Some(e) => build_rated_file_name(self.original_stem.as_str(), Some(e.as_str()), rating),
            None => build_rated_file_name(self.original_stem.as_str(), None, rating),
        };
        with_file_name(self.path.as_str(), name.as_str())
    }
}

/// The directory an import entry is listed under: the file's parent, or `.`.
pub open spec fn import_root(path: Seq<char>) -> Seq<char> {
    match spec_parent(path) {
        Some(p) => p,
        None => "."@,
    }
}

/// The entry for a file being imported, listed under its own directory.
pub fn image_entry_for_path(path: String) -> (e: ImageEntry)
    ensures
        e.describes(import_root(path@), path@),
{
    let root = match parent(path.as_str()) {
        Some(p) => p,
        None => String::from_str("."),
    };
    ImageEntry::from_path(root.as_str(), path)
}

// ---------------------------------------------------------------------------
// Rating index and import
// ---------------------------------------------------------------------------

/// The map of (key, rating) pairs; a later pair replaces an earlier one.
pub open spec fn pairs_map(s: Seq<(Seq<char>, u8)>) -> Map<Seq<char>, u8>
    decreases s.len(),
{
    if s.len() == 0 {
        Map::empty()
    } else {
        pairs_map(s.drop_last()).insert(s.last().0, s.last().1)
    }
}

/// The ratings of the source files by name key, the first rated file of a
/// key winning, and the number of unrated sources.
pub open spec fn spec_rating_index(paths: Seq<Seq<char>>) -> (Map<Seq<char>, u8>, nat)
    decreases paths.len(),
{
    if paths.len() == 0 {
        (Map::empty(), 0)
    } else {
        let (m, unrated) = spec_rating_index(paths.drop_last());
        let (original, _, rating) = name_parts(file_name_or_empty(paths.last()));
        match rating {
            None => (m, unrated + 1),
            Some(r) => {
                let k = name_key(original);
                if m.contains_key(k) {
                    (m, unrated)
                } else {
                    (m.insert(k, r), unrated)
                }
            },
        }
    }
}

/// Ratings of source files by name key.
pub struct RatingIndex {
    entries: Vec<(String, u8)>,
}

pub open spec fn pair_views(e: Seq<(String, u8)>) -> Seq<(Seq<char>, u8)> {
    e.map_values(|p: (String, u8)| (p.0@, p.1))
}

proof fn lemma_pairs_map(s: Seq<(Seq<char>, u8)>)
    requires
        forall|i: int, j: int| 0 <= i < j < s.len() ==> s[i].0 != s[j].0,
    ensures
        forall|k: Seq<char>|
            #![trigger pairs_map(s).contains_key(k)]
            pairs_map(s).contains_key(k) <==> exists|i: int| 0 <= i < s.len() && s[i].0 == k,
        forall|i: int| 0 <= i < s.len() ==> pairs_map(s)[#[trigger] s[i].0] == s[i].1,
    decreases s.len(),
{
    if s.len() > 0 {
        let d = s.drop_last();
        lemma_pairs_map(d);
        assert forall|k: Seq<char>|
            #![trigger pairs_map(s).contains_key(k)]
            pairs_map(s).contains_key(k) <==> exists|i: int| 0 <= i < s.len() && s[i].0 == k by {
            if pairs_map(d).contains_key(k) {
                let i = choose|i: int| 0 <= i < d.len() && d[i].0 == k;
                assert(s[i].0 == k);
            }
            if exists|i: int| 0 <= i < s.len() && s[i].0 == k {
                let i = choose|i: int| 0 <= i < s.len() && s[i].0 == k;
                if i < s.len() - 1 {
                    assert(d[i].0 == k);
                }
            }
        }
        assert forall|i: int| 0 <= i < s.len() implies pairs_map(s)[#[trigger] s[i].0] == s[i].1 by {
            if i < s.len() - 1 {
                assert(d[i] == s[i]);
                assert(s[i].0 != s.last().0);
            }
        }
    }
}

impl View for RatingIndex {
    type V = Map<Seq<char>, u8>;

    closed spec fn view(&self) -> Map<Seq<char>, u8> {
        pairs_map(pair_views(self.entries@))
    }
}

/// No key is stored twice.
pub open spec fn distinct_keys(e: Seq<(String, u8)>) -> bool {
    forall|i: int, j: int| 0 <= i < j < e.len() ==> (#[trigger] e[i]).0@ != (#[trigger] e[j]).0@
}

impl RatingIndex {
    #[verifier::type_invariant]
    spec fn wf(&self) -> bool {
        distinct_keys(self.entries@)
    }

    /// The rating recorded for `key`.
    pub fn get(&self, key: &str) -> (r: Option<u8>)
        ensures
            r == if self@.contains_key(key@) {
                Some(self@[key@])
            } else {
                None
            },
    {
        proof {
            use_type_invariant(self);
            lemma_distinct_views(self.entries@);
            lemma_pairs_map(pair_views(self.entries@));
        }
        match find_key(&self.entries, key) {
            Some(i) => {
                assert(pair_views(self.entries@)[i as int].0 == key@);
                Some(self.entries[i].1)
            },
            None => {
                assert(!self@.contains_key(key@)) by {
                    if self@.contains_key(key@) {
                        let j = choose|j: int|
                            0 <= j < pair_views(self.entries@).len() && pair_views(
                                self.entries@,
                            )[j].0 == key@;
                        assert(self.entries@[j].0@ == key@);
                    }
                }
                None
            },
        }
    }

}

proof fn lemma_distinct_views(e: Seq<(String, u8)>)
    requires
        distinct_keys(e),
    ensures
        forall|i: int, j: int|
            0 <= i < j < pair_views(e).len() ==> pair_views(e)[i].0 != pair_views(e)[j].0,
{
    assert forall|i: int, j: int| 0 <= i < j < pair_views(e).len() implies pair_views(e)[i].0
        != pair_views(e)[j].0 by {
        assert(e[i].0@ != e[j].0@);
    }
}

fn find_key(entries: &Vec<(String, u8)>, key: &str) -> (r: Option<usize>)
    ensures
        match r {
            Some(i) => i < entries@.len() && entries@[i as int].0@ == key@,
            None => forall|i: int| 0 <= i < entries@.len() ==> entries@[i].0@ != key@,
        },
{
    let mut i: usize = 0;
    while i < entries.len()
        invariant
            i <= entries@.len(),
            forall|j: int| 0 <= j < i ==> entries@[j].0@ != key@,
        decreases entries@.len() - i,
    {
        if crate::text::str_eq(entries[i].0.as_str(), key) {
            return Some(i);
        }
        i = i + 1;
    }
    None
}

/// Collects the ratings of the source files: for each name key the rating of
/// the first rated file with that key, and the number of unrated files.
pub fn build_rating_index(paths: &Vec<String>) -> (r: (RatingIndex, usize))
    ensures
        (r.0@, r.1 as nat) == spec_rating_index(string_views(paths@)),
{
    let ghost pv = string_views(paths@);
    let mut entries: Vec<(String, u8)> = Vec::new();
    let mut unrated: usize = 0;
    let mut i: usize = 0;
    assert(pv.take(0) =~= Seq::<Seq<char>>::empty());
    while i < paths.len()
        invariant
            pv == string_views(paths@),
            i <= paths@.len(),
            unrated <= i,
            distinct_keys(entries@),
            (pairs_map(pair_views(entries@)), unrated as nat) == spec_rating_index(
                pv.take(i as int),
            ),
        decreases paths@.len() - i,
    {
        assert(pv.take(i + 1).drop_last() =~= pv.take(i as int));
        assert(pv.take(i + 1).last() == paths@[i as int]@);
        let entry = image_entry_for_path(paths[i].clone());
        proof {
            lemma_distinct_views(entries@);
            lemma_pairs_map(pair_views(entries@));
        }
        match entry.rating {
            None => {
                unrated = unrated + 1;
            },
            Some(rating) => {
                let key = normalized_name_key(entry.original_stem.as_str());
                match find_key(&entries, key.as_str()) {
                    Some(j) => {
                        assert(pair_views(entries@)[j as int].0 == key@);
                    },
                    None => {
                        assert(!pairs_map(pair_views(entries@)).contains_key(key@)) by {
                            if pairs_map(pair_views(entries@)).contains_key(key@) {
                                let j = choose|j: int|
                                    0 <= j < pair_views(entries@).len() && pair_views(
                                        entries@,
                                    )[j].0 == key@;
                                assert(entries@[j].0@ == key@);
                            }
                        }
                        let ghost before = entries@;
                        entries.push((key, rating));
                        assert(pair_views(entries@).drop_last() =~= pair_views(before));
                    },
                }
            },
        }
        i = i + 1;
    }
    assert(pv.take(paths@.len() as int) =~= pv);
    (RatingIndex { entries }, unrated)
}

/// What importing does to one target file.
#[derive(Clone, Copy, Debug, PartialEq, Eq, Structural)]
pub enum ImportAction {
    /// No source file has the target's name key.
    MissingSource,
    /// The target already carries the source's rating.
    Unchanged,
    /// The target is renamed to carry this rating.
    Rerate(u8),
}

pub open spec fn spec_import_action(
    original_stem: Seq<char>,
    rating: Option<u8>,
    index: Map<Seq<char>, u8>,
) -> ImportAction {
    let k = name_key(original_stem);
    if !index.contains_key(k) {
        ImportAction::MissingSource
    } else if rating == Some(index[k]) {
        ImportAction::Unchanged
    } else {
        ImportAction::Rerate(index[k])
    }
}

/// Decides what importing the ratings in `index` does to `target`.
pub fn import_action(target: &ImageEntry, index: &RatingIndex) -> (a: ImportAction)
    ensures
        a == spec_import_action(target.original_stem@, target.rating, index@),
{
    let key = normalized_name_key(target.original_stem.as_str());
    match index.get(key.as_str()) {
        None => ImportAction::MissingSource,
        Some(r) => {
            if target.rating == Some(r) {
                ImportAction::Unchanged
            } else {
                ImportAction::Rerate(r)
            }
        },
    }
}

/// Counts of what importing ratings did.
#[derive(Clone, Copy, Debug, PartialEq, Eq)]
pub struct ImportStats {
    pub updated: usize,
    pub unchanged: usize,
    pub missing_source: usize,
    pub source_unrated: usize,
    pub failed: usize,
}

impl ImportStats {
    /// No target counted yet; `source_unrated` source files had no rating.
    pub fn new(source_unrated: usize) -> (r: ImportStats)
        ensures
            r.updated == 0 && r.unchanged == 0 && r.missing_source == 0 && r.failed == 0,
            r.source_unrated == source_unrated,
    {
        ImportStats { updated: 0, unchanged: 0, missing_source: 0, source_unrated, failed: 0 }
    }

    /// Counts one target: by its action, and for a rename by whether the
    /// rename succeeded.
    pub fn record(&mut self, action: ImportAction, renamed: bool)
        requires
            old(self).updated < usize::MAX,
            old(self).unchanged < usize::MAX,
            old(self).missing_source < usize::MAX,
            old(self).failed < usize::MAX,
        ensures
            final(self).source_unrated == old(self).source_unrated,
            final(self).missing_source == old(self).missing_source + if action == ImportAction::MissingSource {
                1int
            } else {
                0
            },
            final(self).unchanged == old(self).unchanged + if action == ImportAction::Unchanged {
                1int
            } else {
                0
            },
            final(self).updated == old(self).updated + if action is Rerate && renamed {
                1int
            } else {
                0
            },
            final(self).failed == old(self).failed + if action is Rerate && !renamed {
                1int
            } else {
                0
            },
    {
        match action {
            ImportAction::MissingSource => {
                self.missing_source = self.missing_source + 1;
            },
            ImportAction::Unchanged => {
                self.unchanged = self.unchanged + 1;
            },
            ImportAction::Rerate(_) => {
                if renamed {
                    self.updated = self.updated + 1;
                } else {
                    self.failed = self.failed + 1;
                }
            },
        }
    }

    /// The closing line of an import.
    pub fn summary(&self) -> (r: String)
        ensures
            r@ == "Imported ratings: "@ + decimal(self.updated as nat) + " updated, "@ + decimal(
                self.unchanged as nat,
            ) + " unchanged, "@ + decimal(self.missing_source as nat) + " without source match, "@
                + decimal(self.source_unrated as nat) + " unrated sources ignored, "@ + decimal(
                self.failed as nat,
            ) + " failed"@,
    {
        let mut r = String::from_str("Imported ratings: ");
        push_str(&mut r, decimal_string(self.updated as u64).as_str());
        push_str(&mut r, " updated, ");
        push_str(&mut r, decimal_string(self.unchanged as u64).as_str());
        push_str(&mut r, " unchanged, ");
        push_str(&mut r, decimal_string(self.missing_source as u64).as_str());
        push_str(&mut r, " without source match, ");
        push_str(&mut r, decimal_string(self.source_unrated as u64).as_str());
        push_str(&mut r, " unrated sources ignored, ");
        push_str(&mut r, decimal_string(self.failed as u64).as_str());
        push_str(&mut r, " failed");
        r
    }
}

/// The error when the renamed file would replace another file.
pub fn rename_conflict_message(path: &str, new_path: &str) -> (r: String)
    ensures
        r@ == "Cannot rename "@ + path@ + " because "@ + new_path@ + " already exists"@,
{
    let mut r = String::from_str("Cannot rename ");
    push_str(&mut r, path);
    push_str(&mut r, " because ");
    push_str(&mut r, new_path);
    push_str(&mut r, " already exists");
    r
}

// ---------------------------------------------------------------------------
// Laws
// ---------------------------------------------------------------------------

proof fn lemma_last_index_append(s: Seq<char>, t: Seq<char>, c: char)
    requires
        !t.contains(c),
    ensures
        last_index(s + t, c) == last_index(s, c),
    decreases t.len(),
{
    if t.len() > 0 {
        assert((s + t).drop_last() =~= s + t.drop_last());
        assert((s + t).last() == t.last());
        assert(!t.drop_last().contains(c)) by {
            if t.drop_last().contains(c) {
                let k = choose|k: int| 0 <= k < t.drop_last().len() && t.drop_last()[k] == c;
                assert(t[k] == c);
            }
        }
        lemma_last_index_append(s, t.drop_last(), c);
    } else {
        assert(s + t =~= s);
    }
}

proof fn lemma_count_filled_append(a: Seq<char>, b: Seq<char>)
    ensures
        count_filled(a + b) == count_filled(a) + count_filled(b),
    decreases b.len(),
{
    if b.len() == 0 {
        assert(a + b =~= a);
    } else {
        assert((a + b).drop_last() =~= a + b.drop_last());
        lemma_count_filled_append(a, b.drop_last());
    }
}

proof fn lemma_count_filled_const(n: nat, c: char)
    ensures
        count_filled(Seq::new(n, |i: int| c)) == if c == FILLED_STAR {
            n
        } else {
            0
        },
    decreases n,
{
    if n > 0 {
        assert(Seq::new(n, |i: int| c).drop_last() =~= Seq::new((n - 1) as nat, |i: int| c));
        lemma_count_filled_const((n - 1) as nat, c);
    }
}

proof fn lemma_stars(r: nat)
    ensures
        stars(r).len() == 5,
        !stars(r).contains('_'),
        !stars(r).contains('.'),
        spec_parse_rating_suffix(stars(r)) == Some(min_rating(r) as u8),
{
    let f = min_rating(r);
    lemma_count_filled_const(f, FILLED_STAR);
    lemma_count_filled_const((5 - f) as nat, EMPTY_STAR);
    lemma_count_filled_append(
        Seq::new(f, |i: int| FILLED_STAR),
        Seq::new((5 - f) as nat, |i: int| EMPTY_STAR),
    );
    assert forall|i: int| 0 <= i < 5 implies #[trigger] is_star(stars(r)[i]) by {
        if i < f {
            assert(stars(r)[i] == FILLED_STAR);
        } else {
            assert(stars(r)[i] == EMPTY_STAR);
        }
    }
    assert(!stars(r).contains('_')) by {
        if stars(r).contains('_') {
            let k = choose|k: int| 0 <= k < stars(r).len() && stars(r)[k] == '_';
            assert(is_star(stars(r)[k]));
        }
    }
    assert(!stars(r).contains('.')) by {
        if stars(r).contains('.') {
            let k = choose|k: int| 0 <= k < stars(r).len() && stars(r)[k] == '.';
            assert(is_star(stars(r)[k]));
        }
    }
}

/// A rating suffix added to any stem is read back: the stem is recovered and
/// the rating is the one given, clamped to five stars.
pub proof fn rating_suffix_round_trip(stem: Seq<char>, rating: nat)
    ensures
        spec_split_rating_suffix(rated_stem(stem, rating)) == (stem, Some(min_rating(rating) as u8)),
{
    lemma_stars(rating);
    let rs = rated_stem(stem, rating);
    lemma_last_index_append(stem + seq!['_'], stars(rating), '_');
    assert(last_index(stem + seq!['_'], '_') == Some(stem.len() as int));
    assert(rs.subrange(stem.len() as int + 1, rs.len() as int) =~= stars(rating));
    assert(rs.subrange(0, stem.len() as int) =~= stem);
}

/// Whether a file name's extension can be split off again: an extension
/// holds no `.`, and a name without one has no `.` after its first character.
pub open spec fn splittable(stem: Seq<char>, ext: Option<Seq<char>>) -> bool {
    match ext {
        Some(e) => !e.contains('.'),
        None => last_index(stem, '.') is None || last_index(stem, '.') == Some(0int),
    }
}

/// The file name that carries a rating is read back as the same stem,
/// extension and rating (clamped to five stars).
pub proof fn rated_name_round_trip(stem: Seq<char>, ext: Option<Seq<char>>, rating: nat)
    requires
        splittable(stem, ext),
    ensures
        name_parts(spec_rated_file_name(stem, ext, rating)) == (
            stem,
            ext,
            Some(min_rating(rating) as u8),
        ),
{
    lemma_stars(rating);
    rating_suffix_round_trip(stem, rating);
    let rs = rated_stem(stem, rating);
    lemma_last_index_append(stem + seq!['_'], stars(rating), '.');
    lemma_last_index_append(stem, seq!['_'], '.');
    assert(!seq!['_'].contains('.')) by {
        if seq!['_'].contains('.') {
            let k = choose|k: int| 0 <= k < 1 && seq!['_'][k] == '.';
        }
    }
    assert(stem + seq!['_'] + stars(rating) =~= rs);
    match ext {
        Some(e) => {
            let name = rs + seq!['.'] + e;
            lemma_last_index_append(rs + seq!['.'], e, '.');
            assert(name == spec_rated_file_name(stem, ext, rating));
            assert(last_index(rs + seq!['.'], '.') == Some(rs.len() as int));
            assert(name.subrange(0, rs.len() as int) =~= rs);
            assert(name.subrange(rs.len() as int + 1, name.len() as int) =~= e);
        },
        None => {
            lemma_last_index_append(stem, seq!['_'], '.');
        },
    }
}

proof fn lemma_count_filled_bound(s: Seq<char>)
    ensures
        count_filled(s) <= s.len(),
    decreases s.len(),
{
    if s.len() > 0 {
        lemma_count_filled_bound(s.drop_last());
    }
}

/// Every rating in an index is at most five stars.
pub proof fn index_ratings_at_most_five(paths: Seq<Seq<char>>)
    ensures
        forall|k: Seq<char>|
            #[trigger] spec_rating_index(paths).0.contains_key(k) ==> spec_rating_index(paths).0[k]
                <= 5,
    decreases paths.len(),
{
    if paths.len() > 0 {
        index_ratings_at_most_five(paths.drop_last());
        let (original, _, rating) = name_parts(file_name_or_empty(paths.last()));
        let (stem, _) = spec_split_file_name(file_name_or_empty(paths.last()));
        crate::paths::lemma_last_index(stem, '_');
        if let Some(i) = last_index(stem, '_') {
            let suffix = stem.subrange(i + 1, stem.len() as int);
            lemma_count_filled_bound(suffix);
            if let Some(r) = spec_parse_rating_suffix(suffix) {
                assert(r as nat == count_filled(suffix));
                assert(r <= 5);
            }
        }
        assert(rating matches Some(x) ==> x <= 5);
        let (m0, _) = spec_rating_index(paths.drop_last());
        let (m, _) = spec_rating_index(paths);
        assert forall|k: Seq<char>| #[trigger] m.contains_key(k) implies m[k] <= 5 by {
            if m0.contains_key(k) {
                assert(spec_rating_index(paths.drop_last()).0.contains_key(k));
            }
        }
    }
}

/// The first rated source file of a name key decides its rating: a key is in
/// the index exactly when some rated source has it, and later sources with the
/// same key do not change it.
pub proof fn first_rated_source_wins(paths: Seq<Seq<char>>, extra: Seq<char>)
    ensures
        ({
            let (m, _) = spec_rating_index(paths);
            let (m2, _) = spec_rating_index(paths.push(extra));
            forall|k: Seq<char>| #[trigger] m.contains_key(k) ==> m2.contains_key(k) && m2[k] == m[k]
        }),
{
    assert(paths.push(extra).drop_last() =~= paths);
}

/// Importing renames a target so that it keeps its stem and extension and
/// carries the source's rating; importing the same ratings again leaves the
/// renamed file unchanged.
pub proof fn import_is_idempotent(
    sources: Seq<Seq<char>>,
    stem: Seq<char>,
    ext: Option<Seq<char>>,
    rating: Option<u8>,
    new_rating: u8,
)
    requires
        splittable(stem, ext),
        spec_import_action(stem, rating, spec_rating_index(sources).0) == ImportAction::Rerate(
            new_rating,
        ),
    ensures
        ({
            let (s2, e2, r2) = name_parts(spec_rated_file_name(stem, ext, new_rating as nat));
            &&& s2 == stem
            &&& e2 == ext
            &&& r2 == Some(new_rating)
            &&& spec_import_action(s2, r2, spec_rating_index(sources).0) == ImportAction::Unchanged
        }),
{
    index_ratings_at_most_five(sources);
    let k = name_key(stem);
    assert(spec_rating_index(sources).0.contains_key(k));
    rated_name_round_trip(stem, ext, new_rating as nat);
}

/// A file named with a rating inside a directory is listed under that
/// directory by its stem, extension and rating, and shown by its title
/// alone: for a stem and an extension without `/` (and an extension
/// without `.`), the entry of `root` joined with the rated name reads them
/// back.
pub proof fn rated_entry_round_trip(root: Seq<char>, stem: Seq<char>, ext: Seq<char>, rating: nat, e: ImageEntry)
    requires
        !stem.contains('/'),
        !ext.contains('/'),
        !ext.contains('.'),
        e.describes(root, spec_join(root, spec_rated_file_name(stem, Some(ext), rating))),
    ensures
        e.original_stem@ == stem,
        opt_view(e.extension) == Some(ext),
        e.rating == Some(min_rating(rating) as u8),
        e.display_title@ == stem + seq!['.'] + ext,
        e.display_path@ == e.display_title@,
{
    let name = spec_rated_file_name(stem, Some(ext), rating);
    let rs = rated_stem(stem, rating);
    lemma_stars(rating);
    assert(name == rs + seq!['.'] + ext);
    assert(name[stem.len() as int] == '_');
    assert(valid_component(name)) by {
        assert(name != seq!['.']);
        if name.contains('/') {
            let i = choose|i: int| 0 <= i < name.len() && name[i] == '/';
            if i < stem.len() {
                assert(stem[i] == '/');
            } else if i == stem.len() {
            } else if i < rs.len() {
                let k = i - stem.len() - 1;
                assert(name[i] == stars(rating)[k]);
                assert(stars(rating)[k] == FILLED_STAR || stars(rating)[k] == EMPTY_STAR);
            } else if i == rs.len() {
            } else {
                assert(ext[i - rs.len() - 1] == '/');
            }
        }
    }
    assert(name != seq!['.', '.']) by {
        if name.len() == 2 {
            assert(rs.len() >= 6);
        }
    }
    lemma_join_name(root, name);
    rated_name_round_trip(stem, Some(ext), rating);
}

} // verus!
