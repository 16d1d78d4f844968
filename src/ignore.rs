//! Ignore patterns: regular expressions tested against a file's path
//! relative to the scan root.
use vstd::prelude::*;
use vstd::string::StrSliceExecFns;

use crate::paths::{last_index_of, lemma_last_index_of};

verus! {

#[verifier::external_type_specification]
#[verifier::external_body]
pub struct ExRegex(regex::Regex);

#[verifier::external_type_specification]
#[verifier::external_body]
pub struct ExRegexError(regex::Error);

/// Whether a pattern is a valid regular expression.
pub uninterp spec fn regex_compiles(pattern: Seq<char>) -> bool;

/// Whether the regular expression `pattern` matches somewhere in `text`.
pub uninterp spec fn regex_is_match(pattern: Seq<char>, text: Seq<char>) -> bool;

/// Relies on `regex::Regex::new`: compiles `pattern`; whether it succeeds
/// depends on the pattern alone.
#[verifier::external_body]
fn compile(pattern: &str) -> (r: Result<regex::Regex, regex::Error>)
    ensures
        r is Ok == regex_compiles(pattern@),
{
    regex::Regex::new(pattern)
}

/// A compiled ignore pattern together with its source text.
pub struct IgnorePattern {
    source: String,
    re: regex::Regex,
}

impl View for IgnorePattern {
    type V = Seq<char>;

    closed spec fn view(&self) -> Seq<char> {
        self.source@
    }
}

/// Relies on `regex::Regex::is_match`, on the expression that
/// `IgnorePattern::new` compiled from `p`'s source: whether it matches
/// somewhere in `text`.
#[verifier::external_body]
fn pattern_is_match(p: &IgnorePattern, text: &str) -> (r: bool)
    ensures
        r == regex_is_match(p@, text@),
{
    p.re.is_match(text)
}

impl IgnorePattern {
    /// Compiles `source`; fails exactly when it is not a valid expression.
    pub fn new(source: &str) -> (r: Result<IgnorePattern, regex::Error>)
        ensures
            r is Ok == regex_compiles(source@),
            r is Ok ==> r->Ok_0@ == source@,
    {
        match compile(source) {
            Ok(re) => Ok(IgnorePattern { source: source.to_owned(), re }),
            Err(e) => Err(e),
        }
    }

    /// The pattern's source text.
    pub fn source(&self) -> (r: &str)
        ensures
            r@ == self@,
    {
        self.source.as_str()
    }

    /// Whether the pattern matches somewhere in `text`.
    pub fn is_match(&self, text: &str) -> (r: bool)
        ensures
            r == regex_is_match(self@, text@),
    {
        pattern_is_match(self, text)
    }
}

/// The sources of a list of patterns.
pub open spec fn sources(pats: Seq<IgnorePattern>) -> Seq<Seq<char>> {
    pats.map_values(|p: IgnorePattern| p@)
}

/// Whether some pattern of `pats` matches `text`.
pub open spec fn is_ignored(pats: Seq<Seq<char>>, text: Seq<char>) -> bool {
    exists|k: int| 0 <= k < pats.len() && regex_is_match(#[trigger] pats[k], text)
}

/// The index of the first pattern of `patterns` that matches `text`.
pub fn first_match(patterns: &Vec<IgnorePattern>, text: &str) -> (r: Option<usize>)
    ensures
        match r {
            None => !is_ignored(sources(patterns@), text@),
            Some(k) => k < patterns@.len() && regex_is_match(patterns@[k as int]@, text@)
                && forall|j: int| 0 <= j < k ==> !regex_is_match(#[trigger] patterns@[j]@, text@),
        },
{
    let mut i: usize = 0;
    while i < patterns.len()
        invariant
            i <= patterns@.len(),
            forall|j: int| 0 <= j < i ==> !regex_is_match(#[trigger] patterns@[j]@, text@),
        decreases patterns@.len() - i,
    {
        if patterns[i].is_match(text) {
            return Some(i);
        }
        i = i + 1;
    }
    assert forall|k: int| 0 <= k < sources(patterns@).len() implies !regex_is_match(
        #[trigger] sources(patterns@)[k],
        text@,
    ) by {
        assert(sources(patterns@)[k] == patterns@[k]@);
    }
    None
}

/// The non-empty lines of `s`, split at `\n`, in order.
pub open spec fn nonempty_lines(s: Seq<char>) -> Seq<Seq<char>>
    decreases s.len(),
{
    let k = last_index_of(s, '\n');
    if !(0 <= k < s.len()) {
        if s.len() == 0 {
            Seq::empty()
        } else {
            seq![s]
        }
    } else {
        let rest = s.subrange(k + 1, s.len() as int);
        nonempty_lines(s.subrange(0, k)) + if rest.len() == 0 {
            Seq::empty()
        } else {
            seq![rest]
        }
    }
}

proof fn lemma_last_index_of_range(s: Seq<char>, c: char)
    ensures
        -1 <= last_index_of(s, c) < s.len(),
    decreases s.len(),
{
    if s.len() > 0 && s.last() != c {
        lemma_last_index_of_range(s.drop_last(), c);
    }
}

/// The ignore patterns of a text: one per non-empty line, in order. Fails
/// exactly when one of those lines is not a valid expression.
pub fn parse_ignore_patterns(text: &str) -> (r: Result<Vec<IgnorePattern>, regex::Error>)
    ensures
        r is Ok == forall|i: int|
            0 <= i < nonempty_lines(text@).len() ==> regex_compiles(
                #[trigger] nonempty_lines(text@)[i],
            ),
        r is Ok ==> sources(r->Ok_0@) == nonempty_lines(text@),
{
    let n = text.unicode_len();
    let mut out: Vec<IgnorePattern> = Vec::new();
    let mut start: usize = 0;
    let mut i: usize = 0;
    while i <= n
        invariant
            n == text@.len(),
            start <= i <= n,
            sources(out@) == nonempty_lines(text@.subrange(0, start as int)),
            forall|k: int| 0 <= k < out@.len() ==> regex_compiles(#[trigger] out@[k]@),
            start == 0 || text@[start - 1] == '\n',
            forall|k: int| start <= k < i && k < n ==> text@[k] != '\n',
        decreases n + 1 - i,
    {
        if i == n || text.get_char(i) == '\n' {
            let seg = text.substring_char(start, i);
            let ghost pre = text@.subrange(0, i as int);
            let ghost before = text@.subrange(0, start as int);
            proof {
                if start == 0 {
                    lemma_last_index_of(pre, '\n', -1);
                } else {
                    assert forall|k: int| start - 1 < k < pre.len() implies pre[k] != '\n' by {}
                    lemma_last_index_of(pre, '\n', start - 1);
                    assert(pre.subrange(0, start - 1) =~= text@.subrange(0, start - 1));
                    assert forall|k: int| start - 1 < k < before.len() implies before[k] != '\n' by {}
                    lemma_last_index_of(before, '\n', start - 1);
                    assert(before.subrange(0, start - 1) =~= text@.subrange(0, start - 1));
                    assert(before.subrange(start as int, before.len() as int).len() == 0);
                }
                assert(pre.subrange(start as int, pre.len() as int) =~= seg@);
                if start == 0 {
                    assert(before.len() == 0);
                    assert(pre =~= seg@);
                }
            }
            if i > start {
                match IgnorePattern::new(seg) {
                    Ok(p) => {
                        out.push(p);
                    },
                    Err(e) => {
                        proof {
                            lemma_lines_of_prefix(text@, i as int);
                            let k = sources(out@).len() as int;
                            assert(nonempty_lines(pre) =~= sources(out@).push(seg@));
                            assert(nonempty_lines(pre)[k] == seg@);
                            assert(nonempty_lines(text@).subrange(0, nonempty_lines(pre).len() as int)
                                == nonempty_lines(pre));
                            assert(nonempty_lines(text@)[k] == seg@);
                        }
                        return Err(e);
                    },
                }
                assert(sources(out@) =~= nonempty_lines(pre));
            } else {
                assert(sources(out@) =~= nonempty_lines(pre));
            }
            if i < n {
                proof {
                    let pre1 = text@.subrange(0, i + 1);
                    lemma_last_index_of(pre1, '\n', i as int);
                    assert(pre1.subrange(0, i as int) =~= pre);
                    assert(nonempty_lines(pre1) =~= nonempty_lines(pre));
                }
                start = i + 1;
            } else {
                assert(pre =~= text@);
                proof {
                    assert forall|k: int|
                        0 <= k < nonempty_lines(text@).len() implies regex_compiles(
                        #[trigger] nonempty_lines(text@)[k],
                    ) by {
                        assert(nonempty_lines(text@)[k] == sources(out@)[k]);
                        assert(sources(out@)[k] == out@[k]@);
                    }
                }
                return Ok(out);
            }
        }
        i = i + 1;
    }
    proof {
        assert(false);
    }
    Ok(out)
}

/// The lines of a prefix that ends at a line break, or at the end, start
/// the lines of the whole text.
proof fn lemma_lines_of_prefix(s: Seq<char>, i: int)
    requires
        0 <= i <= s.len(),
        i == s.len() || s[i] == '\n',
    ensures
        nonempty_lines(s.subrange(0, i)).len() <= nonempty_lines(s).len(),
        nonempty_lines(s).subrange(0, nonempty_lines(s.subrange(0, i)).len() as int)
            == nonempty_lines(s.subrange(0, i)),
    decreases s.len(),
{
    let k = last_index_of(s, '\n');
    lemma_last_index_of_range(s, '\n');
    if i == s.len() {
        assert(s.subrange(0, i) =~= s);
        assert(nonempty_lines(s).subrange(0, nonempty_lines(s).len() as int) =~= nonempty_lines(s));
    } else {
        lemma_last_index_of_after(s, '\n', i);
        let t = s.subrange(0, k);
        let rest = s.subrange(k + 1, s.len() as int);
        let tail: Seq<Seq<char>> = if rest.len() == 0 {
            Seq::empty()
        } else {
            seq![rest]
        };
        assert(nonempty_lines(s) == nonempty_lines(t) + tail);
        if i == k {
            assert(s.subrange(0, i) =~= t);
            assert((nonempty_lines(t) + tail).subrange(0, nonempty_lines(t).len() as int)
                =~= nonempty_lines(t));
        } else {
            assert(t.subrange(0, i) =~= s.subrange(0, i));
            lemma_lines_of_prefix(t, i);
            let a = nonempty_lines(s.subrange(0, i));
            assert((nonempty_lines(t) + tail).subrange(0, a.len() as int) =~= nonempty_lines(
                t,
            ).subrange(0, a.len() as int));
        }
    }
}

proof fn lemma_last_index_of_after(s: Seq<char>, c: char, i: int)
    requires
        0 <= i < s.len(),
        s[i] == c,
    ensures
        last_index_of(s, c) >= i,
    decreases s.len(),
{
    if s.last() != c {
        assert(s.drop_last()[i] == s[i]);
        lemma_last_index_of_after(s.drop_last(), c, i);
    }
}

} // verus!
