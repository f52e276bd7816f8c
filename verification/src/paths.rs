//! File paths as text, split into components at `/`.
//!
//! A path is read as how it starts (a root `/`, a leading `.` component, or
//! neither) and its components; other empty and `.` components are dropped,
//! so `a//b/./c` and `a/b/c` are the same path. Results are rendered in that
//! normal form, keeping a root or a leading `.` as `std::path` keeps them.
use vstd::prelude::*;
use crate::text::{push_char, push_str, string_from, string_of};

verus! {

// ---------------------------------------------------------------------------
// Specification
// ---------------------------------------------------------------------------

/// Adds the piece `cur` to the components, unless it is empty or `.`.
pub open spec fn close_piece(done: Seq<Seq<char>>, cur: Seq<char>) -> Seq<Seq<char>> {
    if cur.len() == 0 || cur == seq!['.'] {
        done
    } else {
        done.push(cur)
    }
}

/// The components before the last `/` of `s`, and the piece after it.
pub open spec fn scan_path(s: Seq<char>) -> (Seq<Seq<char>>, Seq<char>)
    decreases s.len(),
{
    if s.len() == 0 {
        (Seq::empty(), Seq::empty())
    } else {
        let (done, cur) = scan_path(s.drop_last());
        if s.last() == '/' {
            (close_piece(done, cur), Seq::empty())
        } else {
            (done, cur.push(s.last()))
        }
    }
}

/// The components of a path.
pub open spec fn components(s: Seq<char>) -> Seq<Seq<char>> {
    let (done, cur) = scan_path(s);
    close_piece(done, cur)
}

pub open spec fn is_absolute(s: Seq<char>) -> bool {
    s.len() > 0 && s[0] == '/'
}

/// How a path starts, before its components.
#[derive(Clone, Copy, Debug, PartialEq, Eq, Structural)]
pub enum Lead {
    /// A root: `/`.
    Root,
    /// A leading `.` component: `.` alone or followed by `/`.
    Here,
    /// Neither.
    Bare,
}

pub open spec fn lead(s: Seq<char>) -> Lead {
    if is_absolute(s) {
        Lead::Root
    } else if s.len() > 0 && s[0] == '.' && (s.len() == 1 || s[1] == '/') {
        Lead::Here
    } else {
        Lead::Bare
    }
}

/// Joins components with `/`.
pub open spec fn join_components(c: Seq<Seq<char>>) -> Seq<char>
    decreases c.len(),
{
    if c.len() == 0 {
        Seq::empty()
    } else if c.len() == 1 {
        c[0]
    } else {
        join_components(c.drop_last()) + seq!['/'] + c.last()
    }
}

/// The text of a path with the given start and components.
pub open spec fn render(l: Lead, c: Seq<Seq<char>>) -> Seq<char> {
    match l {
        Lead::Root => seq!['/'] + join_components(c),
        Lead::Here => if c.len() == 0 {
            seq!['.']
        } else {
            seq!['.', '/'] + join_components(c)
        },
        Lead::Bare => join_components(c),
    }
}

/// The last component, unless there is none or it is `..`.
pub open spec fn spec_file_name(p: Seq<char>) -> Option<Seq<char>> {
    let c = components(p);
    if c.len() == 0 || c.last() == seq!['.', '.'] {
        None
    } else {
        Some(c.last())
    }
}

/// The path without its last component: empty for `.` alone; none for an
/// empty path or a root.
pub open spec fn spec_parent(p: Seq<char>) -> Option<Seq<char>> {
    let c = components(p);
    if c.len() == 0 {
        if lead(p) == Lead::Here {
            Some(Seq::empty())
        } else {
            None
        }
    } else {
        Some(render(lead(p), c.drop_last()))
    }
}

/// The components of `p` after those of `base`, when `base` is a prefix of
/// `p` component by component (and both start alike).
pub open spec fn spec_strip_prefix(p: Seq<char>, base: Seq<char>) -> Option<Seq<char>> {
    let c = components(p);
    let b = components(base);
    if lead(p) == lead(base) && b.len() <= c.len() && c.take(b.len() as int) == b {
        Some(render(Lead::Bare, c.skip(b.len() as int)))
    } else {
        None
    }
}

/// `base` followed by `rel`; a rooted `rel` replaces `base`.
pub open spec fn spec_join(base: Seq<char>, rel: Seq<char>) -> Seq<char> {
    if is_absolute(rel) {
        render(Lead::Root, components(rel))
    } else {
        render(lead(base), components(base) + components(rel))
    }
}

/// The path with its file name replaced by `name` (or `name` appended when
/// the path has no file name).
pub open spec fn spec_with_file_name(p: Seq<char>, name: Seq<char>) -> Seq<char> {
    let c = components(p);
    let kept = if spec_file_name(p) is Some {
        c.drop_last()
    } else {
        c
    };
    if is_absolute(name) {
        render(Lead::Root, components(name))
    } else {
        render(lead(p), kept + components(name))
    }
}

/// The index of the last `c` in `s`.
pub open spec fn last_index(s: Seq<char>, c: char) -> Option<int>
    decreases s.len(),
{
    if s.len() == 0 {
        None
    } else if s.last() == c {
        Some(s.len() - 1)
    } else {
        last_index(s.drop_last(), c)
    }
}

/// The extension of a file name: the text after the last `.`, unless that
/// `.` starts the name.
pub open spec fn name_extension(name: Seq<char>) -> Option<Seq<char>> {
    match last_index(name, '.') {
        Some(i) if i > 0 => Some(name.subrange(i + 1, name.len() as int)),
        _ => None,
    }
}

/// The stem of a file name: the text before the last `.`, unless that `.`
/// starts the name (then the whole name).
pub open spec fn name_stem(name: Seq<char>) -> Seq<char> {
    match last_index(name, '.') {
        Some(i) if i > 0 => name.subrange(0, i),
        _ => name,
    }
}

pub open spec fn spec_extension(p: Seq<char>) -> Option<Seq<char>> {
    match spec_file_name(p) {
        Some(n) => name_extension(n),
        None => None,
    }
}

pub open spec fn spec_file_stem(p: Seq<char>) -> Option<Seq<char>> {
    match spec_file_name(p) {
        Some(n) => Some(name_stem(n)),
        None => None,
    }
}

/// The path with its extension replaced by `ext` (removed when `ext` is
/// empty); unchanged when the path has no file name.
pub open spec fn spec_with_extension(p: Seq<char>, ext: Seq<char>) -> Seq<char> {
    match spec_file_stem(p) {
        None => p,
        Some(stem) => spec_with_file_name(
            p,
            if ext.len() == 0 {
                stem
            } else {
                stem + seq!['.'] + ext
            },
        ),
    }
}

// ---------------------------------------------------------------------------
// Implementation
// ---------------------------------------------------------------------------

pub open spec fn comp_views(c: Seq<Vec<char>>) -> Seq<Seq<char>> {
    c.map_values(|v: Vec<char>| v@)
}

fn close_piece_exec(done: &mut Vec<Vec<char>>, cur: Vec<char>)
    ensures
        comp_views(final(done)@) == close_piece(comp_views(old(done)@), cur@),
{
    let is_dot = cur.len() == 1 && cur[0] == '.';
    assert(is_dot == (cur@ == seq!['.'])) by {
        if cur@.len() == 1 && cur@[0] == '.' {
            assert(cur@ =~= seq!['.']);
        }
    }
    if cur.len() != 0 && !is_dot {
        let ghost before = done@;
        done.push(cur);
        assert(comp_views(done@) =~= comp_views(before).push(cur@));
    }
}

/// The components of a path.
pub fn split_path(p: &str) -> (r: Vec<Vec<char>>)
    ensures
        comp_views(r@) == components(p@),
{
    let chars = crate::text::chars_of(p);
    let mut done: Vec<Vec<char>> = Vec::new();
    let mut cur: Vec<char> = Vec::new();
    let mut i: usize = 0;
    while i < chars.len()
        invariant
            chars@ == p@,
            i <= chars@.len(),
            (comp_views(done@), cur@) == scan_path(chars@.take(i as int)),
        decreases chars@.len() - i,
    {
        assert(chars@.take(i + 1).drop_last() =~= chars@.take(i as int));
        let c = chars[i];
        if c == '/' {
            let piece = cur;
            cur = Vec::new();
            close_piece_exec(&mut done, piece);
        } else {
            cur.push(c);
        }
        i = i + 1;
    }
    assert(chars@.take(chars@.len() as int) =~= chars@);
    close_piece_exec(&mut done, cur);
    done
}

pub fn is_absolute_exec(p: &str) -> (r: bool)
    ensures
        r == is_absolute(p@),
{
    p.unicode_len() > 0 && p.get_char(0) == '/'
}

pub fn lead_exec(p: &str) -> (r: Lead)
    ensures
        r == lead(p@),
{
    if is_absolute_exec(p) {
        Lead::Root
    } else {
        let n = p.unicode_len();
        if n > 0 && p.get_char(0) == '.' && (n == 1 || p.get_char(1) == '/') {
            Lead::Here
        } else {
            Lead::Bare
        }
    }
}

/// Joins components with `/`, after the text of how the path starts.
pub fn render_exec(l: Lead, c: &Vec<Vec<char>>) -> (r: String)
    ensures
        r@ == render(l, comp_views(c@)),
{
    let mut r = String::new();
    match l {
        Lead::Root => push_char(&mut r, '/'),
        Lead::Here => {
            push_char(&mut r, '.');
            if c.len() > 0 {
                push_char(&mut r, '/');
            }
        },
        Lead::Bare => {},
    }
    let ghost start = r@;
    assert(start == match l {
        Lead::Root => seq!['/'],
        Lead::Here => if c@.len() == 0 {
            seq!['.']
        } else {
            seq!['.', '/']
        },
        Lead::Bare => Seq::<char>::empty(),
    });
    let mut i: usize = 0;
    while i < c.len()
        invariant
            i <= c@.len(),
            start == match l {
                Lead::Root => seq!['/'],
                Lead::Here => if c@.len() == 0 {
                    seq!['.']
                } else {
                    seq!['.', '/']
                },
                Lead::Bare => Seq::<char>::empty(),
            },
            r@ == start + join_components(comp_views(c@).take(i as int)),
        decreases c@.len() - i,
    {
        let ghost before = r@;
        if i > 0 {
            push_char(&mut r, '/');
        }
        let s = string_from(&c[i]);
        push_str(&mut r, s.as_str());
        proof {
            let cv = comp_views(c@);
            assert(cv.take(i + 1).drop_last() =~= cv.take(i as int));
            if i == 0 {
                assert(join_components(cv.take(1)) == cv[0]);
                assert(r@ =~= start + join_components(cv.take(1)));
            } else {
                assert(r@ =~= start + join_components(cv.take(i + 1)));
            }
        }
        i = i + 1;
    }
    assert(comp_views(c@).take(c@.len() as int) =~= comp_views(c@));
    if l == Lead::Bare || (l == Lead::Here && c.len() == 0) {
        assert(r@ =~= render(l, comp_views(c@)));
    }
    r
}

/// The last component of a path, unless there is none or it is `..`.
pub fn file_name(p: &str) -> (r: Option<String>)
    ensures
        match r {
            Some(s) => spec_file_name(p@) == Some(s@),
            None => spec_file_name(p@) is None,
        },
{
    let c = split_path(p);
    if c.len() == 0 {
        return None;
    }
    let last = &c[c.len() - 1];
    let dots = last.len() == 2 && last[0] == '.' && last[1] == '.';
    assert(dots == (last@ == seq!['.', '.'])) by {
        if last@.len() == 2 && last@[0] == '.' && last@[1] == '.' {
            assert(last@ =~= seq!['.', '.']);
        }
    }
    if dots {
        None
    } else {
        Some(string_from(last))
    }
}

/// The parent of a path.
pub fn parent(p: &str) -> (r: Option<String>)
    ensures
        match r {
            Some(s) => spec_parent(p@) == Some(s@),
            None => spec_parent(p@) is None,
        },
{
    let mut c = split_path(p);
    if c.len() == 0 {
        if lead_exec(p) == Lead::Here {
            return Some(String::new());
        }
        return None;
    }
    let ghost before = c@;
    c.pop();
    assert(comp_views(c@) =~= comp_views(before).drop_last());
    Some(render_exec(lead_exec(p), &c))
}

fn chars_eq(a: &Vec<char>, b: &Vec<char>) -> (r: bool)
    ensures
        r == (a@ == b@),
{
    if a.len() != b.len() {
        return false;
    }
    let mut i: usize = 0;
    while i < a.len()
        invariant
            a@.len() == b@.len(),
            i <= a@.len(),
            forall|j: int| 0 <= j < i ==> a@[j] == b@[j],
        decreases a@.len() - i,
    {
        if a[i] != b[i] {
            return false;
        }
        i = i + 1;
    }
    assert(a@ =~= b@);
    true
}

/// The components of `p` after those of `base`.
#[verifier::loop_isolation(false)]
pub fn strip_prefix(p: &str, base: &str) -> (r: Option<String>)
    ensures
        match r {
            Some(s) => spec_strip_prefix(p@, base@) == Some(s@),
            None => spec_strip_prefix(p@, base@) is None,
        },
{
    let c = split_path(p);
    let b = split_path(base);
    if lead_exec(p) != lead_exec(base) || b.len() > c.len() {
        return None;
    }
    let ghost cv = comp_views(c@);
    let ghost bv = comp_views(b@);
    let mut i: usize = 0;
    while i < b.len()
        invariant
            b@.len() <= c@.len(),
            i <= b@.len(),
            cv == comp_views(c@),
            bv == comp_views(b@),
            forall|j: int| 0 <= j < i ==> cv[j] == bv[j],
        decreases b@.len() - i,
    {
        if !chars_eq(&c[i], &b[i]) {
            assert(cv.take(bv.len() as int)[i as int] != bv[i as int]);
            return None;
        }
        i = i + 1;
    }
    assert(cv.take(bv.len() as int) =~= bv);
    let mut rest: Vec<Vec<char>> = Vec::new();
    let mut k = b.len();
    while k < c.len()
        invariant
            b@.len() <= k <= c@.len(),
            cv == comp_views(c@),
            comp_views(rest@) == cv.subrange(b@.len() as int, k as int),
        decreases c@.len() - k,
    {
        let ghost before = rest@;
        rest.push(clone_chars(&c[k]));
        k = k + 1;
        assert(comp_views(rest@) =~= cv.subrange(b@.len() as int, k as int));
    }
    assert(cv.subrange(b@.len() as int, c@.len() as int) =~= cv.skip(bv.len() as int));
    Some(render_exec(Lead::Bare, &rest))
}

fn clone_chars(v: &Vec<char>) -> (r: Vec<char>)
    ensures
        r@ == v@,
{
    let mut r: Vec<char> = Vec::new();
    let mut i: usize = 0;
    while i < v.len()
        invariant
            i <= v@.len(),
            r@ == v@.take(i as int),
        decreases v@.len() - i,
    {
        r.push(v[i]);
        i = i + 1;
        assert(r@ =~= v@.take(i as int));
    }
    assert(v@.take(v@.len() as int) =~= v@);
    r
}

pub proof fn lemma_last_index(s: Seq<char>, c: char)
    ensures
        last_index(s, c) matches Some(i) ==> 0 <= i < s.len() && s[i] == c,
    decreases s.len(),
{
    if s.len() > 0 && s.last() != c {
        lemma_last_index(s.drop_last(), c);
    }
}

fn append_components(a: &mut Vec<Vec<char>>, b: Vec<Vec<char>>)
    ensures
        comp_views(final(a)@) == comp_views(old(a)@) + comp_views(b@),
{
    let ghost start = a@;
    let mut i: usize = 0;
    while i < b.len()
        invariant
            i <= b@.len(),
            comp_views(a@) == comp_views(start) + comp_views(b@).take(i as int),
        decreases b@.len() - i,
    {
        let ghost before = a@;
        a.push(clone_chars(&b[i]));
        assert(comp_views(a@) =~= comp_views(before).push(b@[i as int]@));
        assert(comp_views(b@).take(i + 1) =~= comp_views(b@).take(i as int).push(b@[i as int]@));
        i = i + 1;
        assert(comp_views(a@) =~= comp_views(start) + comp_views(b@).take(i as int));
    }
    assert(comp_views(b@).take(b@.len() as int) =~= comp_views(b@));
}

/// `base` followed by `rel`.
pub fn join(base: &str, rel: &str) -> (r: String)
    ensures
        r@ == spec_join(base@, rel@),
{
    if is_absolute_exec(rel) {
        return render_exec(Lead::Root, &split_path(rel));
    }
    let mut c = split_path(base);
    append_components(&mut c, split_path(rel));
    render_exec(lead_exec(base), &c)
}

/// The path with its file name replaced by `name`.
pub fn with_file_name(p: &str, name: &str) -> (r: String)
    ensures
        r@ == spec_with_file_name(p@, name@),
{
    if is_absolute_exec(name) {
        return render_exec(Lead::Root, &split_path(name));
    }
    let has_name = file_name(p).is_some();
    let mut c = split_path(p);
    if has_name {
        let ghost before = c@;
        c.pop();
        assert(comp_views(c@) =~= comp_views(before).drop_last());
    }
    append_components(&mut c, split_path(name));
    render_exec(lead_exec(p), &c)
}

/// The index of the last `c` in `s`.
pub fn last_index_exec(s: &Vec<char>, c: char) -> (r: Option<usize>)
    ensures
        match r {
            Some(i) => last_index(s@, c) == Some(i as int) && i < s@.len(),
            None => last_index(s@, c) is None,
        },
{
    proof {
        lemma_last_index(s@, c);
    }
    let mut i = s.len();
    assert(s@.take(i as int) =~= s@);
    while i > 0
        invariant
            i <= s@.len(),
            last_index(s@, c) == last_index(s@.take(i as int), c),
        decreases i,
    {
        assert(s@.take(i as int).drop_last() =~= s@.take(i - 1));
        if s[i - 1] == c {
            return Some(i - 1);
        }
        i = i - 1;
    }
    None
}

/// The extension of a file name.
pub fn extension_of_name(name: &str) -> (r: Option<String>)
    ensures
        match r {
            Some(s) => name_extension(name@) == Some(s@),
            None => name_extension(name@) is None,
        },
{
    let chars = crate::text::chars_of(name);
    match last_index_exec(&chars, '.') {
        Some(i) => {
            let n = chars.len();
            assert(i < n);
            if i > 0 {
                Some(string_of(&chars, i + 1, n))
            } else {
                None
            }
        },
        None => None,
    }
}

/// The stem of a file name.
pub fn stem_of_name(name: &str) -> (r: String)
    ensures
        r@ == name_stem(name@),
{
    let chars = crate::text::chars_of(name);
    match last_index_exec(&chars, '.') {
        Some(i) => {
            if i > 0 {
                string_of(&chars, 0, i)
            } else {
                string_from(&chars)
            }
        },
        None => string_from(&chars),
    }
}

/// The extension of a path's file name.
pub fn extension(p: &str) -> (r: Option<String>)
    ensures
        match r {
            Some(s) => spec_extension(p@) == Some(s@),
            None => spec_extension(p@) is None,
        },
{
    match file_name(p) {
        Some(n) => extension_of_name(n.as_str()),
        None => None,
    }
}

/// The stem of a path's file name.
pub fn file_stem(p: &str) -> (r: Option<String>)
    ensures
        match r {
            Some(s) => spec_file_stem(p@) == Some(s@),
            None => spec_file_stem(p@) is None,
        },
{
    match file_name(p) {
        Some(n) => Some(stem_of_name(n.as_str())),
        None => None,
    }
}

/// The path with its extension replaced by `ext`.
pub fn with_extension(p: &str, ext: &str) -> (r: String)
    ensures
        r@ == spec_with_extension(p@, ext@),
{
    match file_stem(p) {
        None => String::from_str(p),
        Some(stem) => {
            let mut name = stem;
            let ghost st = name@;
            if ext.unicode_len() != 0 {
                push_char(&mut name, '.');
                push_str(&mut name, ext);
                assert(name@ =~= st + seq!['.'] + ext@);
            }
            with_file_name(p, name.as_str())
        },
    }
}

// ---------------------------------------------------------------------------
// Splitting what was joined
// ---------------------------------------------------------------------------

/// A component as `components` gives them: not empty, not `.`, no `/`.
pub open spec fn valid_component(w: Seq<char>) -> bool {
    w.len() > 0 && w != seq!['.'] && !w.contains('/')
}

proof fn lemma_scan_append(t: Seq<char>, w: Seq<char>)
    requires
        !w.contains('/'),
    ensures
        scan_path(t + w) == (scan_path(t).0, scan_path(t).1 + w),
    decreases w.len(),
{
    if w.len() == 0 {
        assert(t + w =~= t);
        assert(scan_path(t).1 + w =~= scan_path(t).1);
    } else {
        let v = w.drop_last();
        assert(!v.contains('/')) by {
            if v.contains('/') {
                let i = choose|i: int| 0 <= i < v.len() && v[i] == '/';
                assert(w[i] == '/');
            }
        }
        lemma_scan_append(t, v);
        assert((t + w).drop_last() =~= t + v);
        assert((t + w).last() == w.last());
        assert(w.last() != '/') by {
            assert(w[w.len() - 1] == w.last());
        }
        assert((scan_path(t).1 + v).push(w.last()) =~= scan_path(t).1 + w);
    }
}

proof fn lemma_scan_root(s: Seq<char>)
    ensures
        scan_path(seq!['/'] + s) == scan_path(s),
    decreases s.len(),
{
    if s.len() == 0 {
        assert(seq!['/'] + s =~= seq!['/']);
        assert(seq!['/'].drop_last() =~= Seq::<char>::empty());
        assert(scan_path(Seq::<char>::empty()) == (Seq::<Seq<char>>::empty(), Seq::<char>::empty()));
    } else {
        lemma_scan_root(s.drop_last());
        assert((seq!['/'] + s).drop_last() =~= seq!['/'] + s.drop_last());
        assert((seq!['/'] + s).last() == s.last());
    }
}

proof fn lemma_join_first(c: Seq<Seq<char>>)
    requires
        c.len() > 0,
        c[0].len() > 0,
    ensures
        join_components(c).len() > 0,
        join_components(c)[0] == c[0][0],
    decreases c.len(),
{
    if c.len() > 1 {
        lemma_join_first(c.drop_last());
    }
}

/// Joining valid components and splitting the result gives them back.
proof fn lemma_join_split(c: Seq<Seq<char>>)
    requires
        forall|k: int| 0 <= k < c.len() ==> valid_component(#[trigger] c[k]),
    ensures
        components(join_components(c)) == c,
        c.len() > 0 ==> scan_path(join_components(c)) == (c.drop_last(), c.last()),
    decreases c.len(),
{
    if c.len() == 0 {
        assert(scan_path(Seq::<char>::empty()) == (Seq::<Seq<char>>::empty(), Seq::<char>::empty()));
    } else if c.len() == 1 {
        assert(valid_component(c[0]));
        lemma_scan_append(Seq::empty(), c[0]);
        assert(Seq::<char>::empty() + c[0] =~= c[0]);
        assert(c.drop_last() =~= Seq::<Seq<char>>::empty());
        assert(Seq::<Seq<char>>::empty().push(c[0]) =~= c);
    } else {
        let d = c.drop_last();
        let j = join_components(d);
        lemma_join_split(d);
        assert(valid_component(c.last())) by {
            assert(c[c.len() - 1] == c.last());
        }
        lemma_scan_append(j + seq!['/'], c.last());
        assert((j + seq!['/']).drop_last() =~= j);
        assert((j + seq!['/']).last() == '/');
        assert(Seq::<char>::empty() + c.last() =~= c.last());
        assert(d.push(c.last()) =~= c);
    }
}

/// Every component of a path is valid.
proof fn lemma_components_valid(s: Seq<char>)
    ensures
        forall|k: int| 0 <= k < components(s).len() ==> valid_component(#[trigger] components(s)[k]),
{
    lemma_scan_valid(s);
}

proof fn lemma_scan_valid(s: Seq<char>)
    ensures
        forall|k: int| 0 <= k < scan_path(s).0.len() ==> valid_component(#[trigger] scan_path(s).0[k]),
        !scan_path(s).1.contains('/'),
        forall|k: int| 0 <= k < components(s).len() ==> valid_component(#[trigger] components(s)[k]),
    decreases s.len(),
{
    if s.len() > 0 {
        lemma_scan_valid(s.drop_last());
        let (done, cur) = scan_path(s.drop_last());
        if s.last() != '/' {
            assert(!cur.push(s.last()).contains('/')) by {
                if cur.push(s.last()).contains('/') {
                    let i = choose|i: int| 0 <= i < cur.push(s.last()).len() && cur.push(s.last())[i] == '/';
                    if i < cur.len() {
                        assert(cur[i] == '/');
                    }
                }
            }
        }
    }
}

proof fn lemma_scan_here(s: Seq<char>)
    ensures
        scan_path(seq!['.', '/'] + s) == scan_path(s),
    decreases s.len(),
{
    if s.len() == 0 {
        assert(seq!['.', '/'] + s =~= seq!['.', '/']);
        assert(seq!['.', '/'].drop_last() =~= seq!['.']);
        assert(seq!['.'].drop_last() =~= Seq::<char>::empty());
        assert(scan_path(Seq::<char>::empty()) == (Seq::<Seq<char>>::empty(), Seq::<char>::empty()));
        assert(Seq::<char>::empty().push('.') =~= seq!['.']);
        assert(scan_path(seq!['.']) == (Seq::<Seq<char>>::empty(), seq!['.']));
        assert(close_piece(Seq::<Seq<char>>::empty(), seq!['.']) == Seq::<Seq<char>>::empty());
        assert(scan_path(seq!['.', '/']) == (Seq::<Seq<char>>::empty(), Seq::<char>::empty()));
    } else {
        lemma_scan_here(s.drop_last());
        assert((seq!['.', '/'] + s).drop_last() =~= seq!['.', '/'] + s.drop_last());
        assert((seq!['.', '/'] + s).last() == s.last());
    }
}

/// The text of joined components starts with the first component.
proof fn lemma_join_prefix(c: Seq<Seq<char>>)
    requires
        c.len() > 0,
    ensures
        join_components(c).len() >= c[0].len(),
        forall|i: int| 0 <= i < c[0].len() ==> join_components(c)[i] == c[0][i],
    decreases c.len(),
{
    if c.len() > 1 {
        lemma_join_prefix(c.drop_last());
    }
}

/// A path rendered from valid components splits into them again, and
/// starts as it was rendered.
pub proof fn lemma_render_split(l: Lead, c: Seq<Seq<char>>)
    requires
        forall|k: int| 0 <= k < c.len() ==> valid_component(#[trigger] c[k]),
    ensures
        components(render(l, c)) == c,
        lead(render(l, c)) == l,
{
    lemma_join_split(c);
    let j = join_components(c);
    match l {
        Lead::Root => {
            lemma_scan_root(j);
        },
        Lead::Here => {
            if c.len() == 0 {
                assert(seq!['.'].drop_last() =~= Seq::<char>::empty());
                assert(scan_path(Seq::<char>::empty()) == (Seq::<Seq<char>>::empty(), Seq::<char>::empty()));
                assert(Seq::<char>::empty().push('.') =~= seq!['.']);
            } else {
                lemma_scan_here(j);
            }
        },
        Lead::Bare => {
            if c.len() > 0 {
                assert(valid_component(c[0]));
                lemma_join_prefix(c);
                assert(c[0].contains(c[0][0]));
                if c[0].len() == 1 {
                    assert(c[0] =~= seq![c[0][0]]);
                } else {
                    assert(c[0].contains(c[0][1]));
                }
            }
        },
    }
}

/// Joining a valid name (not `..`) to a directory gives a path whose file
/// name is that name and whose part after the directory is the name.
pub proof fn lemma_join_name(root: Seq<char>, name: Seq<char>)
    requires
        valid_component(name),
        name != seq!['.', '.'],
    ensures
        spec_file_name(spec_join(root, name)) == Some(name),
        spec_strip_prefix(spec_join(root, name), root) == Some(name),
        spec_parent(name) == Some(Seq::<char>::empty()),
{
    assert(!is_absolute(name)) by {
        assert(name.contains(name[0]));
    }
    lemma_render_split(Lead::Bare, seq![name]);
    assert(join_components(seq![name]) == name);
    lemma_components_valid(root);
    let b = components(root);
    let c = b + seq![name];
    assert forall|k: int| 0 <= k < c.len() implies valid_component(#[trigger] c[k]) by {
        if k < b.len() {
            assert(c[k] == b[k]);
        }
    }
    lemma_render_split(lead(root), c);
    assert(components(name) == seq![name]);
    assert(spec_join(root, name) == render(lead(root), c));
    assert(c.take(b.len() as int) =~= b);
    assert(c.skip(b.len() as int) =~= seq![name]);
    assert(seq![name].drop_last() =~= Seq::<Seq<char>>::empty());
}

/// Giving a path a valid file name (not `..`) gives a path whose file name
/// is that name.
pub proof fn lemma_with_file_name(p: Seq<char>, name: Seq<char>)
    requires
        valid_component(name),
        name != seq!['.', '.'],
    ensures
        spec_file_name(spec_with_file_name(p, name)) == Some(name),
{
    assert(!is_absolute(name)) by {
        assert(name.contains(name[0]));
    }
    lemma_render_split(Lead::Bare, seq![name]);
    assert(join_components(seq![name]) == name);
    lemma_components_valid(p);
    let c = components(p);
    let kept = if spec_file_name(p) is Some {
        c.drop_last()
    } else {
        c
    };
    let d = kept + seq![name];
    assert forall|k: int| 0 <= k < d.len() implies valid_component(#[trigger] d[k]) by {
        if k < kept.len() {
            assert(d[k] == c[k]);
        }
    }
    lemma_render_split(lead(p), d);
    assert(spec_with_file_name(p, name) == render(lead(p), d));
    assert(d.last() == name);
}

/// A file name is a valid component other than `..`.
pub proof fn lemma_file_name_valid(p: Seq<char>)
    ensures
        spec_file_name(p) matches Some(n) ==> valid_component(n) && n != seq!['.', '.'],
{
    lemma_components_valid(p);
    let c = components(p);
    if c.len() > 0 {
        assert(valid_component(c[c.len() - 1]));
    }
}

} // verus!
