//! Path text: the extension of a file's name and a path relative to a root.
use vstd::prelude::*;
use vstd::string::StrSliceExecFns;

verus! {

/// Index of the last occurrence of `c` in `s`, or -1 when `c` does not occur.
pub open spec fn last_index_of(s: Seq<char>, c: char) -> int
    decreases s.len(),
{
    if s.len() == 0 {
        -1
    } else if s.last() == c {
        s.len() - 1
    } else {
        last_index_of(s.drop_last(), c)
    }
}

pub(crate) proof fn lemma_last_index_of(s: Seq<char>, c: char, i: int)
    requires
        -1 <= i < s.len(),
        i >= 0 ==> s[i] == c,
        forall|k: int| i < k < s.len() ==> s[k] != c,
    ensures
        last_index_of(s, c) == i,
    decreases s.len(),
{
    if s.len() > 0 && s.last() != c {
        assert forall|k: int| i < k < s.drop_last().len() implies s.drop_last()[k] != c by {
            assert(s.drop_last()[k] == s[k]);
        }
        lemma_last_index_of(s.drop_last(), c, i);
    }
}

/// The final component of a path: the text after its last `/`.
pub open spec fn file_name_of(p: Seq<char>) -> Seq<char> {
    p.subrange(last_index_of(p, '/') + 1, p.len() as int)
}

/// The extension of a path: the text after the last `.` of its final
/// component, when that dot is not the component's first character.
pub open spec fn extension_of(p: Seq<char>) -> Option<Seq<char>> {
    let name = file_name_of(p);
    let d = last_index_of(name, '.');
    if d <= 0 {
        None
    } else {
        Some(name.subrange(d + 1, name.len() as int))
    }
}

/// ASCII lower case of one character: `A`..=`Z` become `a`..=`z`, every
/// other character stays.
pub open spec fn ascii_lower_char(c: char) -> char {
    if 'A' <= c && c <= 'Z' {
        ((c as u32) + 32) as char
    } else {
        c
    }
}

/// ASCII lower case of a text, character by character.
pub open spec fn ascii_lower(s: Seq<char>) -> Seq<char> {
    s.map_values(|c: char| ascii_lower_char(c))
}

/// The path `p` relative to `root`: what follows `root` and the `/` that
/// separates it from the rest. An empty root leaves the path as it is; a
/// root that ends in `/` needs no further separator.
pub open spec fn relative_to(root: Seq<char>, p: Seq<char>) -> Option<Seq<char>> {
    if root.len() == 0 {
        Some(p)
    } else if p.len() >= root.len() && p.subrange(0, root.len() as int) == root && root.last()
        == '/' {
        Some(p.subrange(root.len() as int, p.len() as int))
    } else if p.len() > root.len() && p.subrange(0, root.len() as int) == root && p[root.len() as int]
        == '/' {
        Some(p.subrange(root.len() as int + 1, p.len() as int))
    } else {
        None
    }
}

/// Relies on `str::to_ascii_lowercase`: ASCII upper-case letters are mapped
/// to their lower-case forms and every other character is kept.
#[verifier::external_body]
pub(crate) fn to_ascii_lowercase(s: &str) -> (r: String)
    ensures
        r@ == ascii_lower(s@),
{
    s.to_ascii_lowercase()
}

/// Index of the last occurrence of `c` in `s`.
fn find_last(s: &str, c: char) -> (r: Option<usize>)
    ensures
        match r {
            None => last_index_of(s@, c) == -1,
            Some(i) => last_index_of(s@, c) == i as int && i < s@.len(),
        },
{
    let n = s.unicode_len();
    let mut i: usize = n;
    while i > 0
        invariant
            n == s@.len(),
            i <= n,
            forall|k: int| i <= k < n ==> s@[k] != c,
        decreases i,
    {
        if s.get_char(i - 1) == c {
            proof {
                lemma_last_index_of(s@, c, i - 1);
            }
            return Some(i - 1);
        }
        i = i - 1;
    }
    proof {
        lemma_last_index_of(s@, c, -1);
    }
    None
}

/// The extension of `path`'s final component, in ASCII lower case.
pub fn normalized_extension(path: &str) -> (r: Option<String>)
    ensures
        match extension_of(path@) {
            None => r is None,
            Some(e) => r is Some && r->Some_0@ == ascii_lower(e),
        },
{
    let n = path.unicode_len();
    let start: usize = match find_last(path, '/') {
        None => 0,
        Some(i) => i + 1,
    };
    let name = path.substring_char(start, n);
    assert(name@ == file_name_of(path@));
    match find_last(name, '.') {
        None => None,
        Some(d) => {
            if d == 0 {
                None
            } else {
                let m = name.unicode_len();
                let ext = name.substring_char(d + 1, m);
                Some(to_ascii_lowercase(ext))
            }
        },
    }
}

/// Whether `s` starts with `prefix`.
fn starts_with(s: &str, prefix: &str) -> (r: bool)
    ensures
        r == (prefix@.len() <= s@.len() && s@.subrange(0, prefix@.len() as int) == prefix@),
{
    let n = s.unicode_len();
    let m = prefix.unicode_len();
    if m > n {
        return false;
    }
    let mut i: usize = 0;
    while i < m
        invariant
            n == s@.len(),
            m == prefix@.len(),
            m <= n,
            i <= m,
            forall|k: int| 0 <= k < i ==> s@[k] == prefix@[k],
        decreases m - i,
    {
        if s.get_char(i) != prefix.get_char(i) {
            assert(s@.subrange(0, m as int)[i as int] != prefix@[i as int]);
            return false;
        }
        i = i + 1;
    }
    assert(s@.subrange(0, m as int) =~= prefix@);
    true
}

/// `path` relative to `root`, or `None` when `path` does not lie under it.
pub fn strip_root(root: &str, path: &str) -> (r: Option<String>)
    ensures
        match relative_to(root@, path@) {
            None => r is None,
            Some(q) => r is Some && r->Some_0@ == q,
        },
{
    let m = root.unicode_len();
    let n = path.unicode_len();
    if m == 0 {
        return Some(path.to_owned());
    }
    if !starts_with(path, root) {
        return None;
    }
    if root.get_char(m - 1) == '/' {
        return Some(path.substring_char(m, n).to_owned());
    }
    if n > m && path.get_char(m) == '/' {
        Some(path.substring_char(m + 1, n).to_owned())
    } else {
        None
    }
}

} // verus!
