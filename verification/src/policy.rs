//! Pure path-eligibility policy: which file paths count as Markdown documents,
//! which directory names are excluded from scanning and watching, and how a
//! leading `~` in a configured root is expanded.

use vstd::prelude::*;

verus! {

use vstd::string::StrSliceExecFns;
use vstd::string::StringExecFns;

broadcast use vstd::string::group_string_axioms;

/// Index of the last occurrence of `c` in `p[0..i]`, or `-1` if there is none.
pub open spec fn find_last(p: Seq<char>, c: char, i: int) -> int
    decreases i,
{
    if i <= 0 {
        -1
    } else if p[i - 1] == c {
        i - 1
    } else {
        find_last(p, c, i - 1)
    }
}

pub proof fn lemma_find_last_bounds(p: Seq<char>, c: char, i: int)
    requires
        0 <= i,
    ensures
        -1 <= find_last(p, c, i),
        find_last(p, c, i) < i,
    decreases i,
{
    if i > 0 && p[i - 1] != c {
        lemma_find_last_bounds(p, c, i - 1);
    }
}

/// The characters after the last `/`, or the whole path when it has none.
pub open spec fn file_name_of(p: Seq<char>) -> Seq<char> {
    p.subrange(find_last(p, '/', p.len() as int) + 1, p.len() as int)
}

/// An extension equal to `md` or `mdx` up to ASCII case.
pub open spec fn is_md_ext(e: Seq<char>) -> bool {
    ||| (e.len() == 2 && (e[0] == 'm' || e[0] == 'M') && (e[1] == 'd' || e[1] == 'D'))
    ||| (e.len() == 3 && (e[0] == 'm' || e[0] == 'M') && (e[1] == 'd' || e[1] == 'D') && (e[2]
        == 'x' || e[2] == 'X'))
}

/// A path names a Markdown document when the final component has an extension
/// (a `.` strictly after the component's first character) equal to `md` or
/// `mdx` up to ASCII case. A final component that is all extension (a leading
/// dot with no later dot, such as `.md`) has no extension and never qualifies.
pub open spec fn is_markdown_path(p: Seq<char>) -> bool {
    let n = p.len() as int;
    let name_start = find_last(p, '/', n) + 1;
    let dot = find_last(p, '.', n);
    dot > name_start && is_md_ext(p.subrange(dot + 1, n))
}

/// Position of the last occurrence of `c` in `s`, scanning from the end.
pub(crate) fn rfind_char(s: &str, c: char) -> (r: Option<usize>)
    ensures
        match r {
            Some(j) => j < s@.len() && find_last(s@, c, s@.len() as int) == j as int,
            None => find_last(s@, c, s@.len() as int) == -1,
        },
{
    let n = s.unicode_len();
    let mut i = n;
    while i > 0
        invariant
            i <= n,
            n == s@.len(),
            find_last(s@, c, n as int) == find_last(s@, c, i as int),
        decreases i,
    {
        if s.get_char(i - 1) == c {
            return Some(i - 1);
        }
        i -= 1;
    }
    None
}

/// Decides whether `path` names a Markdown document (`.md` or `.mdx`,
/// compared case-insensitively), the same test the scanner and the watcher
/// both apply.
pub fn is_markdown_file(path: &str) -> (r: bool)
    ensures
        r == is_markdown_path(path@),
{
    let n = path.unicode_len();
    let name_start = match rfind_char(path, '/') {
        Some(j) => j + 1,
        None => 0,
    };
    let dot = match rfind_char(path, '.') {
        Some(j) => j,
        None => {
            proof {
                lemma_find_last_bounds(path@, '/', n as int);
            }
            return false;
        },
    };
    if dot <= name_start {
        return false;
    }
    let ext_len = n - dot - 1;
    if ext_len == 2 {
        let c0 = path.get_char(dot + 1);
        let c1 = path.get_char(dot + 2);
        (c0 == 'm' || c0 == 'M') && (c1 == 'd' || c1 == 'D')
    } else if ext_len == 3 {
        let c0 = path.get_char(dot + 1);
        let c1 = path.get_char(dot + 2);
        let c2 = path.get_char(dot + 3);
        (c0 == 'm' || c0 == 'M') && (c1 == 'd' || c1 == 'D') && (c2 == 'x' || c2 == 'X')
    } else {
        false
    }
}

/// Index of the first occurrence of `c` in `p`, or `p.len()` if there is none.
pub open spec fn find_first(p: Seq<char>, c: char) -> int
    decreases p.len(),
{
    if p.len() == 0 {
        0
    } else if p[0] == c {
        0
    } else {
        1 + find_first(p.drop_first(), c)
    }
}

pub proof fn lemma_find_first_bounds(p: Seq<char>, c: char)
    ensures
        0 <= find_first(p, c) <= p.len(),
        find_first(p, c) < p.len() ==> p[find_first(p, c)] == c,
    decreases p.len(),
{
    if p.len() > 0 && p[0] != c {
        lemma_find_first_bounds(p.drop_first(), c);
    }
}

pub proof fn lemma_find_first_char(p: Seq<char>, c: char, k: int)
    requires
        0 <= k <= p.len(),
        k == p.len() || p[k] == c,
        forall|j: int| 0 <= j < k ==> p[j] != c,
    ensures
        find_first(p, c) == k,
    decreases p.len(),
{
    if p.len() > 0 && p[0] != c {
        lemma_find_first_char(p.drop_first(), c, k - 1);
    }
}

/// A directory with this name is pruned: every hidden name (leading `.`) and
/// every name on the exclusion list.
pub open spec fn is_excluded_dir(name: Seq<char>, exclusions: Seq<Seq<char>>) -> bool {
    (name.len() > 0 && name[0] == '.') || exclusions.contains(name)
}

/// A normal path component: non-empty and neither `.` nor `..`.
pub open spec fn is_normal_component(c: Seq<char>) -> bool {
    c.len() > 0 && c != seq!['.'] && c != seq!['.', '.']
}

pub open spec fn component_excluded(c: Seq<char>, exclusions: Seq<Seq<char>>) -> bool {
    is_normal_component(c) && is_excluded_dir(c, exclusions)
}

/// A path is excluded when any of its normal components, evaluated
/// independently, is an excluded directory name.
pub open spec fn is_excluded_path(p: Seq<char>, exclusions: Seq<Seq<char>>) -> bool
    decreases p.len(),
    via is_excluded_path_decreases
{
    let k = find_first(p, '/');
    if k == p.len() {
        component_excluded(p, exclusions)
    } else {
        component_excluded(p.subrange(0, k), exclusions) || is_excluded_path(
            p.subrange(k + 1, p.len() as int),
            exclusions,
        )
    }
}

#[via_fn]
proof fn is_excluded_path_decreases(p: Seq<char>, exclusions: Seq<Seq<char>>) {
    lemma_find_first_bounds(p, '/');
}

/// `p` is `prefix` itself, or lies below it past a `/` boundary.
pub open spec fn path_under(prefix: Seq<char>, p: Seq<char>) -> bool {
    p == prefix || (p.len() > prefix.len() && p.subrange(0, prefix.len() as int) == prefix
        && p[prefix.len() as int] == '/')
}

/// Whatever lies below a child path lies below its parent.
pub proof fn lemma_under_child(dir: Seq<char>, name: Seq<char>, p: Seq<char>)
    requires
        path_under(dir + seq!['/'] + name, p),
    ensures
        path_under(dir, p),
{
    let d = dir + seq!['/'] + name;
    assert(d.len() == dir.len() + 1 + name.len());
    if p == d {
        assert(p.subrange(0, dir.len() as int) =~= dir);
        assert(p[dir.len() as int] == '/');
    } else {
        assert(p.subrange(0, d.len() as int) == d);
        assert forall|k: int| 0 <= k < dir.len() implies p[k] == dir[k] by {
            assert(p.subrange(0, d.len() as int)[k] == d[k]);
        }
        assert(p.subrange(0, dir.len() as int) =~= dir);
        assert(p[dir.len() as int] == d[dir.len() as int]);
    }
}

/// Distinct separator-free sibling names root disjoint subtrees: no path lies
/// below both.
pub proof fn lemma_under_siblings_disjoint(
    dir: Seq<char>,
    n1: Seq<char>,
    n2: Seq<char>,
    p: Seq<char>,
)
    requires
        forall|i: int| 0 <= i < n1.len() ==> n1[i] != '/',
        forall|i: int| 0 <= i < n2.len() ==> n2[i] != '/',
        n1 != n2,
        path_under(dir + seq!['/'] + n1, p),
    ensures
        !path_under(dir + seq!['/'] + n2, p),
{
    let d1 = dir + seq!['/'] + n1;
    let d2 = dir + seq!['/'] + n2;
    if path_under(d2, p) {
        lemma_under_both_siblings(dir, n1, n2, p);
    }
}

proof fn lemma_under_both_siblings(dir: Seq<char>, n1: Seq<char>, n2: Seq<char>, p: Seq<char>)
    requires
        forall|i: int| 0 <= i < n1.len() ==> n1[i] != '/',
        forall|i: int| 0 <= i < n2.len() ==> n2[i] != '/',
        path_under(dir + seq!['/'] + n1, p),
        path_under(dir + seq!['/'] + n2, p),
    ensures
        n1 == n2,
{
    let d1 = dir + seq!['/'] + n1;
    let d2 = dir + seq!['/'] + n2;
    assert(d1.len() == dir.len() + 1 + n1.len());
    assert(d2.len() == dir.len() + 1 + n2.len());
    // Both d1 and d2 are prefixes of p.
    assert(p.subrange(0, d1.len() as int) == d1) by {
        if p == d1 {
            assert(p.subrange(0, d1.len() as int) =~= d1);
        }
    }
    assert(p.subrange(0, d2.len() as int) == d2) by {
        if p == d2 {
            assert(p.subrange(0, d2.len() as int) =~= d2);
        }
    }
    if d1.len() == d2.len() {
        assert forall|k: int| 0 <= k < n1.len() implies n1[k] == n2[k] by {
            assert(p.subrange(0, d1.len() as int)[dir.len() + 1 + k] == d1[dir.len() + 1 + k]);
            assert(p.subrange(0, d2.len() as int)[dir.len() + 1 + k] == d2[dir.len() + 1 + k]);
        }
        assert(n1 =~= n2);
    } else if d1.len() < d2.len() {
        // p extends d1 strictly, so p has a '/' right after d1; that position
        // falls inside n2, which holds no '/'.
        assert(p.len() >= d2.len());
        assert(p != d1);
        assert(p[d1.len() as int] == '/');
        assert(p.subrange(0, d2.len() as int)[d1.len() as int] == d2[d1.len() as int]);
        assert(d2[d1.len() as int] == n2[d1.len() - dir.len() - 1]);
    } else {
        assert(p.len() >= d1.len());
        assert(p != d2);
        assert(p[d2.len() as int] == '/');
        assert(p.subrange(0, d1.len() as int)[d2.len() as int] == d1[d2.len() as int]);
        assert(d1[d2.len() as int] == n1[d2.len() - dir.len() - 1]);
    }
}

/// Two prefixes of one path nest: the shorter lies above the longer.
pub proof fn lemma_under_common(a: Seq<char>, b: Seq<char>, p: Seq<char>)
    requires
        path_under(a, p),
        path_under(b, p),
        a.len() <= b.len(),
    ensures
        path_under(a, b),
{
    if p == b {
    } else {
        assert(p.subrange(0, b.len() as int) == b);
        if p == a {
            assert(a =~= b);
        } else {
            assert(p.subrange(0, a.len() as int) == a);
            if a.len() == b.len() {
                assert(a =~= b);
            } else {
                assert forall|k: int| 0 <= k < a.len() implies b[k] == a[k] by {
                    assert(p.subrange(0, b.len() as int)[k] == b[k]);
                    assert(p.subrange(0, a.len() as int)[k] == a[k]);
                }
                assert(b.subrange(0, a.len() as int) =~= a);
                assert(p.subrange(0, b.len() as int)[a.len() as int] == b[a.len() as int]);
                assert(p[a.len() as int] == '/');
            }
        }
    }
}

/// Character-wise string equality.
pub fn str_eq(a: &str, b: &str) -> (r: bool)
    ensures
        r == (a@ == b@),
{
    let n = a.unicode_len();
    if n != b.unicode_len() {
        return false;
    }
    let mut i: usize = 0;
    while i < n
        invariant
            i <= n,
            n == a@.len(),
            n == b@.len(),
            forall|j: int| 0 <= j < i ==> a@[j] == b@[j],
        decreases n - i,
    {
        if a.get_char(i) != b.get_char(i) {
            return false;
        }
        i += 1;
    }
    proof {
        assert(a@ =~= b@);
    }
    true
}

fn component_is_normal(c: &str) -> (r: bool)
    ensures
        r == is_normal_component(c@),
{
    let n = c.unicode_len();
    if n == 0 {
        false
    } else if n == 1 {
        let dot = c.get_char(0) == '.';
        proof {
            if dot {
                assert(c@ =~= seq!['.']);
            }
        }
        !dot
    } else if n == 2 {
        let dots = c.get_char(0) == '.' && c.get_char(1) == '.';
        proof {
            if dots {
                assert(c@ =~= seq!['.', '.']);
            }
        }
        !dots
    } else {
        true
    }
}

/// Decides whether a directory entry named `name` is pruned from a scan:
/// hidden names (leading `.`) and names on `exclusions` are pruned.
pub fn should_exclude(name: &str, exclusions: &Vec<String>) -> (r: bool)
    ensures
        r == is_excluded_dir(name@, exclusions.deep_view()),
{
    let n = name.unicode_len();
    if n > 0 && name.get_char(0) == '.' {
        return true;
    }
    let mut i: usize = 0;
    while i < exclusions.len()
        invariant
            i <= exclusions.len(),
            forall|j: int| 0 <= j < i ==> exclusions.deep_view()[j] != name@,
        decreases exclusions.len() - i,
    {
        if str_eq(name, exclusions[i].as_str()) {
            proof {
                assert(exclusions.deep_view()[i as int] == name@);
            }
            return true;
        }
        i += 1;
    }
    proof {
        assert(forall|j: int|
            0 <= j < exclusions.deep_view().len() ==> exclusions.deep_view()[j] != name@);
    }
    false
}

fn component_excluded_exec(c: &str, exclusions: &Vec<String>) -> (r: bool)
    ensures
        r == component_excluded(c@, exclusions.deep_view()),
{
    component_is_normal(c) && should_exclude(c, exclusions)
}

fn find_first_char(s: &str, c: char) -> (k: usize)
    ensures
        k as int == find_first(s@, c),
        k <= s@.len(),
{
    let n = s.unicode_len();
    let mut i: usize = 0;
    while i < n
        invariant
            i <= n,
            n == s@.len(),
            forall|j: int| 0 <= j < i ==> s@[j] != c,
        decreases n - i,
    {
        if s.get_char(i) == c {
            proof {
                lemma_find_first_char(s@, c, i as int);
            }
            return i;
        }
        i += 1;
    }
    proof {
        lemma_find_first_char(s@, c, n as int);
    }
    n
}

/// Decides whether any normal component of `path` is an excluded directory
/// name; the watcher applies this to full notification paths, which carry no
/// traversal context.
pub fn path_is_excluded(path: &str, exclusions: &Vec<String>) -> (r: bool)
    ensures
        r == is_excluded_path(path@, exclusions.deep_view()),
    decreases path@.len(),
{
    let n = path.unicode_len();
    let k = find_first_char(path, '/');
    if k == n {
        component_excluded_exec(path, exclusions)
    } else {
        let head = path.substring_char(0, k);
        if component_excluded_exec(head, exclusions) {
            true
        } else {
            let tail = path.substring_char(k + 1, n);
            path_is_excluded(tail, exclusions)
        }
    }
}

/// How a configured root with a leading `~` expands: the home directory
/// replaces the `~` when a home directory is known, and the path stands
/// unchanged otherwise.
pub open spec fn expand_tilde_spec(p: Seq<char>, home: Option<Seq<char>>) -> Seq<char> {
    if p.len() > 0 && p[0] == '~' && home is Some {
        home->0 + p.drop_first()
    } else {
        p
    }
}

/// Expands a leading `~` to the given home directory; without one the path
/// degrades gracefully to its literal form.
pub fn expand_tilde(path: &str, home: Option<&str>) -> (r: String)
    ensures
        r@ == expand_tilde_spec(
            path@,
            match home {
                Some(h) => Some(h@),
                None => None,
            },
        ),
{
    let n = path.unicode_len();
    if n > 0 && path.get_char(0) == '~' {
        match home {
            Some(h) => {
                let mut s = h.to_owned();
                let rest = path.substring_char(1, n);
                s.append(rest);
                return s;
            },
            None => {},
        }
    }
    path.to_owned()
}

/// The final path component, used as an entry's display name.
pub fn file_name(path: &str) -> (r: String)
    ensures
        r@ == file_name_of(path@),
{
    let n = path.unicode_len();
    match rfind_char(path, '/') {
        Some(j) => {
            let r = path.substring_char(j + 1, n).to_owned();
            proof {
                assert(r@ =~= file_name_of(path@));
            }
            r
        },
        None => {
            let r = path.to_owned();
            proof {
                assert(path@.subrange(0, n as int) =~= path@);
            }
            r
        },
    }
}

/// Joins a directory path and a child name with `/`.
pub fn join_path(dir: &str, name: &str) -> (r: String)
    ensures
        r@ == dir@ + seq!['/'] + name@,
{
    let mut s = dir.to_owned();
    s.append("/");
    s.append(name);
    proof {
        reveal_strlit("/");
        assert(("/")@ =~= seq!['/']);
        assert(s@ =~= dir@ + seq!['/'] + name@);
    }
    s
}

} // verus!
