//! Signal name patterns.
//!
//! Patterns are comma-separated and case-insensitive. A pattern without a
//! hierarchy separator is matched against a signal's leaf name; one with a
//! separator is matched against its whole path. A pattern without `*` and `?`
//! is looked for as a substring (or, in exact mode, must be the whole text); a
//! pattern with one of them is an anchored glob in which `*` stands for any
//! run of characters, `?` for any one, and everything else for itself.

use vstd::prelude::*;

use crate::condition::{csv_items, list_items, split_items};
use crate::text::{
    byte_len, bytes_in, chars_of, contains_char, contains_str, has_char, has_infix, is_mark,
    lowercase, to_lower, trim, trim_is_idempotent, trimmed, trimming_keeps,
    uncut_text_is_one_piece, views,
};

verus! {

/// Is `c` a hierarchy separator?
pub open spec fn is_separator(c: char) -> bool {
    c == '.' || c == '/'
}

pub const MAX_FILTER_PATTERN_LEN: usize = 256;

pub const MAX_FILTER_WILDCARDS: usize = 16;

#[derive(Debug)]
pub struct FilterParseError(pub String);

/// How a pattern without wildcards matches.
#[derive(Debug, Clone, Copy, PartialEq, Eq, Structural)]
pub enum MatchMode {
    /// The pattern must appear somewhere in the text.
    Substring,
    /// The pattern must be the whole text.
    Exact,
}

impl Default for MatchMode {
    fn default() -> (m: MatchMode)
        ensures
            m == MatchMode::Substring,
    {
        MatchMode::Substring
    }
}

/// Does the glob `pat` match the whole of `hay`?
pub open spec fn glob(pat: Seq<char>, hay: Seq<char>) -> bool
    decreases pat.len(), hay.len(),
{
    if pat.len() == 0 {
        hay.len() == 0
    } else if pat[0] == '*' {
        ||| glob(pat.drop_first(), hay)
        ||| hay.len() > 0 && glob(pat, hay.drop_first())
    } else if hay.len() == 0 {
        false
    } else if pat[0] == '?' {
        glob(pat.drop_first(), hay.drop_first())
    } else {
        pat[0] == hay[0] && glob(pat.drop_first(), hay.drop_first())
    }
}

fn glob_rec(pat: &Vec<char>, pi: usize, hay: &Vec<char>, hi: usize) -> (r: bool)
    requires
        pi <= pat.len(),
        hi <= hay.len(),
    ensures
        r == glob(pat@.skip(pi as int), hay@.skip(hi as int)),
    decreases pat.len() - pi, hay.len() - hi,
{
    let ghost p = pat@.skip(pi as int);
    let ghost h = hay@.skip(hi as int);
    if pi == pat.len() {
        return hi == hay.len();
    }
    assert(p[0] == pat@[pi as int]);
    assert(p.drop_first() =~= pat@.skip(pi + 1));
    if pat[pi] == '*' {
        let mut at: usize = hi;
        assert(glob(p, h) == glob(p, hay@.skip(at as int)));
        while at < hay.len()
            invariant
                hi <= at <= hay.len(),
                pi < pat.len(),
                p == pat@.skip(pi as int),
                p[0] == '*',
                p.drop_first() == pat@.skip(pi + 1),
                h == hay@.skip(hi as int),
                glob(p, h) == glob(p, hay@.skip(at as int)),
            decreases hay.len() - at,
        {
            if glob_rec(pat, pi + 1, hay, at) {
                return true;
            }
            assert(hay@.skip(at as int).drop_first() =~= hay@.skip(at + 1));
            at += 1;
        }
        return glob_rec(pat, pi + 1, hay, at);
    }
    if hi == hay.len() {
        return false;
    }
    assert(h[0] == hay@[hi as int]);
    assert(h.drop_first() =~= hay@.skip(hi + 1));
    if pat[pi] != '?' && pat[pi] != hay[hi] {
        return false;
    }
    glob_rec(pat, pi + 1, hay, hi + 1)
}

/// Match a glob against a whole string.
pub fn glob_match(pat: &str, hay: &str) -> (r: bool)
    ensures
        r == glob(pat@, hay@),
{
    let p: Vec<char> = chars_of(pat);
    let h: Vec<char> = chars_of(hay);
    assert(p@.skip(0) =~= pat@);
    assert(h@.skip(0) =~= hay@);
    glob_rec(&p, 0, &h, 0)
}

/// `s` with every run of `*` reduced to one.
pub open spec fn stars_collapsed(s: Seq<char>) -> Seq<char>
    decreases s.len(),
{
    if s.len() == 0 {
        Seq::empty()
    } else if s.last() == '*' && s.len() >= 2 && s[s.len() - 2] == '*' {
        stars_collapsed(s.drop_last())
    } else {
        stars_collapsed(s.drop_last()).push(s.last())
    }
}

fn collapse_stars(s: &str) -> (r: String)
    ensures
        r@ == stars_collapsed(s@),
{
    let v: Vec<char> = chars_of(s);
    let mut out: String = String::new();
    let mut i: usize = 0;
    assert(v@.take(0) =~= Seq::empty());
    while i < v.len()
        invariant
            i <= v.len(),
            v@ == s@,
            out@ == stars_collapsed(v@.take(i as int)),
        decreases v.len() - i,
    {
        proof {
            let w = v@.take(i + 1);
            assert(w.drop_last() =~= v@.take(i as int));
            assert(w.last() == v@[i as int]);
        }
        if !(v[i] == '*' && i > 0 && v[i - 1] == '*') {
            out.push(v[i]);
        }
        i += 1;
    }
    assert(v@.take(i as int) =~= s@);
    out
}

/// The number of `*` and `?` in `s`.
pub open spec fn wildcard_count(s: Seq<char>) -> nat
    decreases s.len(),
{
    if s.len() == 0 {
        0
    } else {
        wildcard_count(s.drop_last()) + (if s.last() == '*' || s.last() == '?' {
            1nat
        } else {
            0nat
        })
    }
}

fn count_wildcards(s: &str) -> (n: usize)
    ensures
        n == wildcard_count(s@),
{
    let v: Vec<char> = chars_of(s);
    let mut n: usize = 0;
    let mut i: usize = 0;
    assert(v@.take(0) =~= Seq::empty());
    while i < v.len()
        invariant
            i <= v.len(),
            n <= i,
            n == wildcard_count(v@.take(i as int)),
        decreases v.len() - i,
    {
        proof {
            let w = v@.take(i + 1);
            assert(w.drop_last() =~= v@.take(i as int));
            assert(w.last() == v@[i as int]);
        }
        if v[i] == '*' || v[i] == '?' {
            n += 1;
        }
        i += 1;
    }
    assert(v@.take(i as int) =~= s@);
    n
}

/// One compiled pattern: which text it looks at, and how it matches.
pub struct PatternView {
    /// Look at the whole path rather than the leaf name.
    pub whole_path: bool,
    /// Match as an anchored glob rather than a substring.
    pub anchored: bool,
    /// The pattern, lower-cased.
    pub text: Seq<char>,
}

#[derive(Debug)]
struct Pat {
    whole_path: bool,
    anchored: bool,
    text: String,
}

impl View for Pat {
    type V = PatternView;

    closed spec fn view(&self) -> PatternView {
        PatternView { whole_path: self.whole_path, anchored: self.anchored, text: self.text@ }
    }
}

/// The pattern text after trimming and star collapsing, or why it is refused.
pub open spec fn pattern_text(raw: Seq<char>) -> Result<Seq<char>, Seq<char>> {
    let pat = trimmed(raw);
    let collapsed = stars_collapsed(pat);
    if byte_len(pat) > MAX_FILTER_PATTERN_LEN {
        Err("filter pattern too long; max length is 256"@)
    } else if wildcard_count(collapsed) > MAX_FILTER_WILDCARDS {
        Err("too many wildcard characters in filter pattern; max is 16"@)
    } else {
        Ok(lowercase(collapsed))
    }
}

/// What a non-blank pattern means, or why it is refused.
pub open spec fn pattern_of(raw: Seq<char>, mode: MatchMode) -> Result<PatternView, Seq<char>> {
    match pattern_text(raw) {
        Err(e) => Err(e),
        Ok(text) => Ok(
            PatternView {
                whole_path: has_char(text, '.') || has_char(text, '/'),
                anchored: mode == MatchMode::Exact || has_char(text, '*') || has_char(text, '?'),
                text,
            },
        ),
    }
}

/// Does a prepared pattern have the marks of the pattern as written?
pub open spec fn marks_kept(raw: Seq<char>, text: Seq<char>) -> bool {
    forall|c: char| is_mark(c) ==> #[trigger] has_char(text, c) == has_char(raw, c)
}

proof fn lemma_collapsing_keeps(s: Seq<char>, c: char)
    ensures
        has_char(stars_collapsed(s), c) == has_char(s, c),
    decreases s.len(),
{
    if s.len() > 0 {
        let rest = s.drop_last();
        assert forall|i: int| 0 <= i < rest.len() implies rest[i] == s[i] by {}
        lemma_collapsing_keeps(rest, c);
        let r = stars_collapsed(s);
        if has_char(s, c) {
            let i = choose|i: int| 0 <= i < s.len() && s[i] == c;
            if i < rest.len() {
                assert(rest[i] == c);
                let k = choose|k: int|
                    0 <= k < stars_collapsed(rest).len() && stars_collapsed(rest)[k] == c;
                assert(r[k] == c);
            } else if s.last() == '*' && s.len() >= 2 && s[s.len() - 2] == '*' {
                assert(rest[rest.len() - 1] == c);
            } else {
                assert(r[r.len() - 1] == c);
            }
        }
        if has_char(r, c) {
            let k = choose|k: int| 0 <= k < r.len() && r[k] == c;
            if k < stars_collapsed(rest).len() {
                assert(stars_collapsed(rest)[k] == c);
                let i = choose|i: int| 0 <= i < rest.len() && rest[i] == c;
                assert(s[i] == c);
            } else {
                assert(s[s.len() - 1] == c);
            }
        }
    }
}

/// Check a pattern's size and bring it into the form that is matched, which
/// has the separators and wildcards of the pattern itself.
pub fn prepare_pattern(raw: &str) -> (r: Result<String, FilterParseError>)
    ensures
        match r {
            Ok(s) => pattern_text(raw@) == Ok::<Seq<char>, Seq<char>>(s@),
            Err(e) => pattern_text(raw@) == Err::<Seq<char>, Seq<char>>(e.0@),
        },
        r matches Ok(s) ==> marks_kept(raw@, s@),
{
    let pat: &str = trim(raw);
    if bytes_in(pat) > MAX_FILTER_PATTERN_LEN {
        return Err(FilterParseError("filter pattern too long; max length is 256".to_owned()));
    }
    let collapsed: String = collapse_stars(pat);
    if count_wildcards(collapsed.as_str()) > MAX_FILTER_WILDCARDS {
        return Err(
            FilterParseError(
                "too many wildcard characters in filter pattern; max is 16".to_owned(),
            ),
        );
    }
    let text: String = to_lower(collapsed.as_str());
    proof {
        assert forall|c: char| is_mark(c) implies #[trigger] has_char(text@, c) == has_char(
            raw@,
            c,
        ) by {
            trimming_keeps(raw@, c);
            lemma_collapsing_keeps(pat@, c);
        }
    }
    Ok(text)
}

/// Does a pattern match, going by the pattern as written? Both texts are
/// lower-cased already.
///
/// A separator in the pattern makes the path the text to look at, otherwise it
/// is the leaf name. A wildcard makes the pattern a glob on the whole of that
/// text. Without one the mode decides: the pattern is the text, or a part of it.
pub open spec fn hits_as_written(
    q: Seq<char>,
    mode: MatchMode,
    path: Seq<char>,
    leaf: Seq<char>,
) -> bool {
    let hay = if has_separator(q) {
        path
    } else {
        leaf
    };
    if has_wildcard(q) {
        glob(lowercase(stars_collapsed(trimmed(q))), hay)
    } else if mode == MatchMode::Exact {
        hay == lowercase(trimmed(q))
    } else {
        has_infix(hay, lowercase(trimmed(q)))
    }
}

pub open spec fn has_separator(q: Seq<char>) -> bool {
    has_char(q, '.') || has_char(q, '/')
}

pub open spec fn has_wildcard(q: Seq<char>) -> bool {
    has_char(q, '*') || has_char(q, '?')
}

/// Does each compiled pattern match as written?
pub open spec fn match_as_written(
    items: Seq<Seq<char>>,
    mode: MatchMode,
    pats: Seq<PatternView>,
) -> bool {
    &&& pats.len() == items.len()
    &&& forall|i: int, path: Seq<char>, leaf: Seq<char>|
        0 <= i < items.len() ==> #[trigger] pattern_matches(pats[i], path, leaf)
            == hits_as_written(items[i], mode, path, leaf)
}

proof fn lemma_nothing_to_collapse(s: Seq<char>)
    requires
        !has_char(s, '*'),
    ensures
        stars_collapsed(s) == s,
    decreases s.len(),
{
    if s.len() > 0 {
        let rest = s.drop_last();
        assert(s.last() != '*');
        assert forall|i: int| 0 <= i < rest.len() implies rest[i] != '*' by {
            assert(s[i] == rest[i]);
        }
        lemma_nothing_to_collapse(rest);
        assert(rest.push(s.last()) =~= s);
    } else {
        assert(s =~= Seq::empty());
    }
}

proof fn lemma_matches_as_written(
    raw: Seq<char>,
    mode: MatchMode,
    p: PatternView,
    path: Seq<char>,
    leaf: Seq<char>,
)
    requires
        pattern_of(raw, mode) == Ok::<PatternView, Seq<char>>(p),
        marks_kept(raw, p.text),
    ensures
        pattern_matches(p, path, leaf) == hits_as_written(raw, mode, path, leaf),
{
    assert(is_mark('.') && is_mark('/') && is_mark('*') && is_mark('?'));
    assert(has_char(p.text, '.') == has_char(raw, '.'));
    assert(has_char(p.text, '/') == has_char(raw, '/'));
    assert(has_char(p.text, '*') == has_char(raw, '*'));
    assert(has_char(p.text, '?') == has_char(raw, '?'));
    if !has_wildcard(raw) {
        trimming_keeps(raw, '*');
        lemma_nothing_to_collapse(trimmed(raw));
        plain_glob_is_equality(p.text, path);
        plain_glob_is_equality(p.text, leaf);
    }
}

fn compile(raw: &str, mode: MatchMode) -> (r: Result<Pat, FilterParseError>)
    ensures
        match r {
            Ok(p) => pattern_of(raw@, mode) == Ok::<PatternView, Seq<char>>(p@),
            Err(e) => pattern_of(raw@, mode) == Err::<PatternView, Seq<char>>(e.0@),
        },
        r matches Ok(p) ==> marks_kept(raw@, p@.text),
{
    let prepared: Result<String, FilterParseError> = prepare_pattern(raw);
    match prepared {
        Err(e) => Err(e),
        Ok(text) => {
            let whole_path: bool = contains_char(text.as_str(), '.') || contains_char(
                text.as_str(),
                '/',
            );
            let anchored: bool = mode == MatchMode::Exact || contains_char(text.as_str(), '*')
                || contains_char(text.as_str(), '?');
            Ok(Pat { whole_path, anchored, text })
        },
    }
}

/// What a list of non-blank patterns means, or the first complaint.
pub open spec fn patterns_of(
    items: Seq<Seq<char>>,
    mode: MatchMode,
) -> Result<Seq<PatternView>, Seq<char>>
    decreases items.len(),
{
    if items.len() == 0 {
        Ok(Seq::empty())
    } else {
        match patterns_of(items.drop_last(), mode) {
            Err(e) => Err(e),
            Ok(done) => match pattern_of(items.last(), mode) {
                Err(e) => Err(e),
                Ok(p) => Ok(done.push(p)),
            },
        }
    }
}

proof fn lemma_patterns_fail(items: Seq<Seq<char>>, mode: MatchMode, n: int, e: Seq<char>)
    requires
        0 <= n <= items.len(),
        patterns_of(items.take(n), mode) == Err::<Seq<PatternView>, Seq<char>>(e),
    ensures
        patterns_of(items, mode) == Err::<Seq<PatternView>, Seq<char>>(e),
    decreases items.len() - n,
{
    if n < items.len() {
        assert(items.take(n + 1).drop_last() =~= items.take(n));
        lemma_patterns_fail(items, mode, n + 1, e);
    } else {
        assert(items.take(n) =~= items);
    }
}

/// Does one pattern match? Both texts are lower-cased already.
pub open spec fn pattern_matches(p: PatternView, path: Seq<char>, leaf: Seq<char>) -> bool {
    let hay = if p.whole_path {
        path
    } else {
        leaf
    };
    if p.anchored {
        glob(p.text, hay)
    } else {
        has_infix(hay, p.text)
    }
}

/// Does any pattern match? Both texts are lower-cased already.
pub open spec fn any_pattern_matches(
    pats: Seq<PatternView>,
    path: Seq<char>,
    leaf: Seq<char>,
) -> bool {
    exists|i: int| 0 <= i < pats.len() && pattern_matches(#[trigger] pats[i], path, leaf)
}

/// A set of compiled patterns. An empty set matches nothing.
#[derive(Debug)]
pub struct Filters {
    pats: Vec<Pat>,
}

impl View for Filters {
    type V = Seq<PatternView>;

    closed spec fn view(&self) -> Seq<PatternView> {
        self.pats@.map_values(|p: Pat| p@)
    }
}

/// Does an outcome of compiling patterns say the same as their meaning?
pub open spec fn filters_agree(
    r: Result<Filters, FilterParseError>,
    meaning: Result<Seq<PatternView>, Seq<char>>,
) -> bool {
    match r {
        Ok(f) => meaning == Ok::<Seq<PatternView>, Seq<char>>(f@),
        Err(e) => meaning == Err::<Seq<PatternView>, Seq<char>>(e.0@),
    }
}

impl Filters {
    fn compile_items(items: &Vec<String>, mode: MatchMode) -> (r: Result<Filters, FilterParseError>)
        ensures
            filters_agree(r, patterns_of(views(items@), mode)),
            r matches Ok(f) ==> match_as_written(views(items@), mode, f@),
    {
        let ghost all = views(items@);
        let mut pats: Vec<Pat> = Vec::new();
        let mut i: usize = 0;
        assert(all.take(0) =~= Seq::empty());
        assert(pats@.map_values(|p: Pat| p@) =~= Seq::empty());
        while i < items.len()
            invariant
                i <= items.len() == all.len(),
                all == views(items@),
                patterns_of(all.take(i as int), mode) == Ok::<Seq<PatternView>, Seq<char>>(
                    pats@.map_values(|p: Pat| p@),
                ),
                match_as_written(
                    all.take(i as int),
                    mode,
                    pats@.map_values(|p: Pat| p@),
                ),
            decreases items.len() - i,
        {
            let compiled: Result<Pat, FilterParseError> = compile(items[i].as_str(), mode);
            proof {
                assert(all.take(i + 1).drop_last() =~= all.take(i as int));
                assert(all.take(i + 1).last() == items@[i as int]@);
            }
            match compiled {
                Err(e) => {
                    proof {
                        lemma_patterns_fail(all, mode, i + 1, e.0@);
                    }
                    return Err(e);
                },
                Ok(p) => {
                    let ghost before = pats@.map_values(|p: Pat| p@);
                    pats.push(p);
                    proof {
                        let after = pats@.map_values(|p: Pat| p@);
                        let part = all.take(i + 1);
                        assert(after =~= before.push(p@));
                        assert forall|k: int, path: Seq<char>, leaf: Seq<char>|
                            0 <= k < part.len() implies #[trigger] pattern_matches(
                            after[k],
                            path,
                            leaf,
                        ) == hits_as_written(part[k], mode, path, leaf) by {
                            if k < i {
                                assert(part[k] == all.take(i as int)[k]);
                                assert(after[k] == before[k]);
                            } else {
                                lemma_matches_as_written(part[k], mode, p@, path, leaf);
                            }
                        }
                    }
                },
            }
            i += 1;
        }
        assert(all.take(i as int) =~= all);
        Ok(Filters { pats })
    }

    /// Compile a list of patterns, matching by substring. Blank patterns are
    /// left out.
    pub fn parse(raw_patterns: &Vec<String>) -> (r: Result<Filters, FilterParseError>)
        ensures
            filters_agree(r, patterns_of(list_items(views(raw_patterns@)), MatchMode::Substring)),
            r matches Ok(f) ==> match_as_written(list_items(views(raw_patterns@)), MatchMode::Substring, f@),
    {
        Filters::parse_mode(raw_patterns, MatchMode::Substring)
    }

    /// [`parse`](Self::parse) with the matching mode chosen by the caller.
    pub fn parse_mode(raw_patterns: &Vec<String>, mode: MatchMode) -> (r: Result<
        Filters,
        FilterParseError,
    >)
        ensures
            filters_agree(r, patterns_of(list_items(views(raw_patterns@)), mode)),
            r matches Ok(f) ==> match_as_written(list_items(views(raw_patterns@)), mode, f@),
    {
        let mut items: Vec<String> = Vec::new();
        let mut i: usize = 0;
        assert(views(raw_patterns@).take(0) =~= Seq::empty());
        assert(views(items@) =~= Seq::empty());
        while i < raw_patterns.len()
            invariant
                i <= raw_patterns.len(),
                views(items@) == list_items(views(raw_patterns@).take(i as int)),
            decreases raw_patterns.len() - i,
        {
            let item: &str = trim(raw_patterns[i].as_str());
            proof {
                let w = views(raw_patterns@).take(i + 1);
                assert(w.drop_last() =~= views(raw_patterns@).take(i as int));
                assert(w.last() == raw_patterns@[i as int]@);
            }
            if !item.is_empty() {
                let ghost before = items@;
                let owned: String = item.to_owned();
                items.push(owned);
                assert(views(items@) =~= views(before).push(owned@));
            }
            i += 1;
        }
        assert(views(raw_patterns@).take(i as int) =~= views(raw_patterns@));
        Filters::compile_items(&items, mode)
    }

    /// Compile a comma-joined list of patterns.
    pub fn parse_csv(value: &str) -> (r: Result<Filters, FilterParseError>)
        ensures
            filters_agree(r, patterns_of(csv_items(value@), MatchMode::Substring)),
            r matches Ok(f) ==> match_as_written(csv_items(value@), MatchMode::Substring, f@),
    {
        Filters::parse_csv_mode(value, MatchMode::Substring)
    }

    /// [`parse_csv`](Self::parse_csv) with an explicit matching mode.
    pub fn parse_csv_mode(value: &str, mode: MatchMode) -> (r: Result<Filters, FilterParseError>)
        ensures
            filters_agree(r, patterns_of(csv_items(value@), mode)),
            r matches Ok(f) ==> match_as_written(csv_items(value@), mode, f@),
    {
        let items: Vec<String> = split_items(value);
        Filters::compile_items(&items, mode)
    }

    pub fn is_empty(&self) -> (r: bool)
        ensures
            r == (self@.len() == 0),
    {
        self.pats.len() == 0
    }

    /// Does any pattern match? Both texts must be lower-cased already, each on
    /// its own: lower-casing can change a string's length.
    pub fn matches_lower(&self, path_lower: &str, leaf_lower: &str) -> (r: bool)
        ensures
            r == any_pattern_matches(self@, path_lower@, leaf_lower@),
    {
        let mut i: usize = 0;
        while i < self.pats.len()
            invariant
                i <= self.pats.len(),
                forall|k: int|
                    0 <= k < i ==> !pattern_matches(
                        #[trigger] self@[k],
                        path_lower@,
                        leaf_lower@,
                    ),
            decreases self.pats.len() - i,
        {
            let p: &Pat = &self.pats[i];
            let hay: &str = if p.whole_path {
                path_lower
            } else {
                leaf_lower
            };
            let hit: bool = if p.anchored {
                glob_match(p.text.as_str(), hay)
            } else {
                contains_str(hay, p.text.as_str())
            };
            assert(self@[i as int] == self.pats@[i as int]@);
            if hit {
                assert(pattern_matches(self@[i as int], path_lower@, leaf_lower@));
                return true;
            }
            i += 1;
        }
        false
    }

    /// [`matches_lower`](Self::matches_lower) on texts as they are.
    pub fn matches_path_leaf(&self, path: &str, leaf: &str) -> (r: bool)
        ensures
            r == any_pattern_matches(self@, lowercase(path@), lowercase(leaf@)),
    {
        let p: String = to_lower(path);
        let l: String = to_lower(leaf);
        self.matches_lower(p.as_str(), l.as_str())
    }
}

/// A glob without wildcards matches nothing but itself, so exact mode is
/// equality for a plain pattern.
pub proof fn plain_glob_is_equality(pat: Seq<char>, hay: Seq<char>)
    requires
        !has_char(pat, '*'),
        !has_char(pat, '?'),
    ensures
        glob(pat, hay) == (pat == hay),
    decreases pat.len(),
{
    if pat.len() == 0 {
        if hay.len() == 0 {
            assert(pat =~= hay);
        }
    } else {
        assert(pat[0] != '*' && pat[0] != '?');
        let rest = pat.drop_first();
        assert forall|i: int| 0 <= i < rest.len() implies rest[i] != '*' && rest[i] != '?' by {
            assert(pat[i + 1] == rest[i]);
        }
        if hay.len() > 0 {
            plain_glob_is_equality(rest, hay.drop_first());
            if pat[0] == hay[0] && rest == hay.drop_first() {
                assert(pat =~= seq![pat[0]] + rest);
                assert(hay =~= seq![hay[0]] + hay.drop_first());
            }
        }
    }
}

/// A pattern with a wildcard is compiled alike in both modes.
pub proof fn exact_mode_keeps_globs(raw: Seq<char>)
    requires
        pattern_text(raw) matches Ok(t) ==> has_char(t, '*') || has_char(t, '?'),
    ensures
        pattern_of(raw, MatchMode::Exact) == pattern_of(raw, MatchMode::Substring),
{
}

/// What exact mode matches, substring mode matches too.
pub proof fn exact_implies_substring(
    raw: Seq<char>,
    path: Seq<char>,
    leaf: Seq<char>,
)
    requires
        pattern_of(raw, MatchMode::Exact) is Ok,
        pattern_matches(pattern_of(raw, MatchMode::Exact)->Ok_0, path, leaf),
    ensures
        pattern_of(raw, MatchMode::Substring) is Ok,
        pattern_matches(pattern_of(raw, MatchMode::Substring)->Ok_0, path, leaf),
{
    let p = pattern_of(raw, MatchMode::Exact)->Ok_0;
    let q = pattern_of(raw, MatchMode::Substring)->Ok_0;
    if !q.anchored {
        let hay = if p.whole_path {
            path
        } else {
            leaf
        };
        plain_glob_is_equality(p.text, hay);
        assert(hay.subrange(0, p.text.len() as int) =~= p.text);
        assert(crate::text::occurs_at(hay, p.text, 0));
    }
}

/// A pattern without a separator looks at the name alone, one with a separator
/// at the path alone.
pub proof fn separators_choose_the_text(
    raw: Seq<char>,
    mode: MatchMode,
    p: PatternView,
    path: Seq<char>,
    leaf: Seq<char>,
    other: Seq<char>,
)
    requires
        pattern_of(raw, mode) == Ok::<PatternView, Seq<char>>(p),
    ensures
        !has_char(p.text, '.') && !has_char(p.text, '/') ==> pattern_matches(p, path, leaf)
            == pattern_matches(p, other, leaf),
        has_char(p.text, '.') || has_char(p.text, '/') ==> pattern_matches(p, path, leaf)
            == pattern_matches(p, path, other),
{
}

/// In exact mode a compiled pattern without a wildcard matches just the text
/// that equals it.
pub proof fn exact_patterns_are_equality(
    raw: Seq<char>,
    p: PatternView,
    path: Seq<char>,
    leaf: Seq<char>,
)
    requires
        pattern_of(raw, MatchMode::Exact) == Ok::<PatternView, Seq<char>>(p),
        !has_wildcard(p.text),
    ensures
        pattern_matches(p, path, leaf) == (p.text == if p.whole_path {
            path
        } else {
            leaf
        }),
{
    plain_glob_is_equality(p.text, path);
    plain_glob_is_equality(p.text, leaf);
}

/// A value without a comma is one pattern, unless it is blank.
pub proof fn one_pattern_is_one_item(q: Seq<char>)
    requires
        !has_char(q, ','),
    ensures
        csv_items(q) == if trimmed(q).len() == 0 {
            Seq::empty()
        } else {
            seq![trimmed(q)]
        },
{
    uncut_text_is_one_piece(q, ',');
    let parts = seq![q];
    assert(parts.last() == q);
    assert(parts.drop_last() =~= Seq::empty());
    assert(list_items(parts.drop_last()) =~= Seq::empty());
    assert(Seq::<Seq<char>>::empty().push(trimmed(q)) =~= seq![trimmed(q)]);
}

/// Patterns without a separator look at the leaf name alone.
pub proof fn names_decide_without_separators(
    items: Seq<Seq<char>>,
    mode: MatchMode,
    pats: Seq<PatternView>,
    path: Seq<char>,
    other: Seq<char>,
    leaf: Seq<char>,
)
    requires
        match_as_written(items, mode, pats),
        forall|i: int|
            0 <= i < items.len() ==> !has_separator(#[trigger] items[i]),
    ensures
        any_pattern_matches(pats, path, leaf) == any_pattern_matches(pats, other, leaf),
{
    assert forall|i: int| 0 <= i < pats.len() implies #[trigger] pattern_matches(
        pats[i],
        path,
        leaf,
    ) == pattern_matches(pats[i], other, leaf) by {
        assert(!has_separator(items[i]));
    }
    lemma_any_agree(pats, pats, path, leaf, other, leaf);
}

/// Patterns with a separator look at the path alone.
pub proof fn paths_decide_with_separators(
    items: Seq<Seq<char>>,
    mode: MatchMode,
    pats: Seq<PatternView>,
    path: Seq<char>,
    leaf: Seq<char>,
    other: Seq<char>,
)
    requires
        match_as_written(items, mode, pats),
        forall|i: int|
            0 <= i < items.len() ==> has_separator(#[trigger] items[i]),
    ensures
        any_pattern_matches(pats, path, leaf) == any_pattern_matches(pats, path, other),
{
    assert forall|i: int| 0 <= i < pats.len() implies #[trigger] pattern_matches(
        pats[i],
        path,
        leaf,
    ) == pattern_matches(pats[i], path, other) by {
        assert(has_separator(items[i]));
    }
    lemma_any_agree(pats, pats, path, leaf, path, other);
}

/// A value that is one pattern matches as it is written, blanks around it or
/// not.
pub proof fn one_pattern_matches_as_written(
    q: Seq<char>,
    mode: MatchMode,
    pats: Seq<PatternView>,
    path: Seq<char>,
    leaf: Seq<char>,
)
    requires
        !has_char(q, ','),
        trimmed(q).len() > 0,
        match_as_written(csv_items(q), mode, pats),
    ensures
        any_pattern_matches(pats, path, leaf) == hits_as_written(q, mode, path, leaf),
{
    let t = trimmed(q);
    one_pattern_is_one_item(q);
    trim_is_idempotent(q);
    trimming_keeps(q, '.');
    trimming_keeps(q, '/');
    trimming_keeps(q, '*');
    trimming_keeps(q, '?');
    assert(seq![t][0] == t);
    assert(pattern_matches(pats[0], path, leaf) == hits_as_written(t, mode, path, leaf));
}

/// Of a value that is one pattern: without a separator in it only the leaf name
/// decides, with one only the path.
pub proof fn one_pattern_looks_at_one_text(
    q: Seq<char>,
    mode: MatchMode,
    pats: Seq<PatternView>,
    path: Seq<char>,
    leaf: Seq<char>,
    other: Seq<char>,
)
    requires
        !has_char(q, ','),
        match_as_written(csv_items(q), mode, pats),
    ensures
        !has_separator(q) ==> any_pattern_matches(pats, path, leaf) == any_pattern_matches(
            pats,
            other,
            leaf,
        ),
        has_separator(q) ==> any_pattern_matches(pats, path, leaf) == any_pattern_matches(
            pats,
            path,
            other,
        ),
{
    if trimmed(q).len() == 0 {
        one_pattern_is_one_item(q);
    } else {
        one_pattern_matches_as_written(q, mode, pats, path, leaf);
        one_pattern_matches_as_written(q, mode, pats, other, leaf);
        one_pattern_matches_as_written(q, mode, pats, path, other);
    }
}

/// One pattern with a wildcard matches alike in both modes.
pub proof fn one_glob_matches_alike(
    q: Seq<char>,
    exact: Seq<PatternView>,
    substring: Seq<PatternView>,
    path: Seq<char>,
    leaf: Seq<char>,
)
    requires
        !has_char(q, ','),
        has_wildcard(q),
        match_as_written(csv_items(q), MatchMode::Exact, exact),
        match_as_written(csv_items(q), MatchMode::Substring, substring),
    ensures
        any_pattern_matches(exact, path, leaf) == any_pattern_matches(substring, path, leaf),
{
    trimming_keeps(q, '*');
    trimming_keeps(q, '?');
    one_pattern_matches_as_written(q, MatchMode::Exact, exact, path, leaf);
    one_pattern_matches_as_written(q, MatchMode::Substring, substring, path, leaf);
}

/// In exact mode a pattern without a wildcard matches just the text that equals
/// it, apart from case and blanks around the pattern.
pub proof fn exact_mode_is_equality(
    q: Seq<char>,
    pats: Seq<PatternView>,
    path: Seq<char>,
    leaf: Seq<char>,
)
    requires
        !has_char(q, ','),
        trimmed(q).len() > 0,
        match_as_written(csv_items(q), MatchMode::Exact, pats),
        !has_wildcard(q),
    ensures
        has_separator(q) ==> any_pattern_matches(pats, path, leaf) == (path == lowercase(
            trimmed(q),
        )),
        !has_separator(q) ==> any_pattern_matches(pats, path, leaf) == (leaf == lowercase(
            trimmed(q),
        )),
{
    one_pattern_matches_as_written(q, MatchMode::Exact, pats, path, leaf);
}

/// Patterns with wildcards match alike in both modes.
pub proof fn globs_match_alike(
    items: Seq<Seq<char>>,
    exact: Seq<PatternView>,
    substring: Seq<PatternView>,
    path: Seq<char>,
    leaf: Seq<char>,
)
    requires
        match_as_written(items, MatchMode::Exact, exact),
        match_as_written(items, MatchMode::Substring, substring),
        forall|i: int|
            0 <= i < items.len() ==> has_wildcard(#[trigger] items[i]),
    ensures
        any_pattern_matches(exact, path, leaf) == any_pattern_matches(substring, path, leaf),
{
    assert forall|i: int| 0 <= i < exact.len() implies #[trigger] pattern_matches(
        exact[i],
        path,
        leaf,
    ) == pattern_matches(substring[i], path, leaf) by {
        assert(has_wildcard(items[i]));
    }
    lemma_any_agree(exact, substring, path, leaf, path, leaf);
}

proof fn lemma_any_agree(
    a: Seq<PatternView>,
    b: Seq<PatternView>,
    p: Seq<char>,
    l: Seq<char>,
    q: Seq<char>,
    m: Seq<char>,
)
    requires
        a.len() == b.len(),
        forall|i: int|
            0 <= i < a.len() ==> #[trigger] pattern_matches(a[i], p, l) == pattern_matches(
                b[i],
                q,
                m,
            ),
    ensures
        any_pattern_matches(a, p, l) == any_pattern_matches(b, q, m),
{
    if any_pattern_matches(a, p, l) {
        let i = choose|i: int| 0 <= i < a.len() && pattern_matches(#[trigger] a[i], p, l);
        assert(pattern_matches(b[i], q, m));
    }
    if any_pattern_matches(b, q, m) {
        let i = choose|i: int| 0 <= i < b.len() && pattern_matches(#[trigger] b[i], q, m);
        assert(pattern_matches(a[i], p, l));
    }
}

} // verus!
