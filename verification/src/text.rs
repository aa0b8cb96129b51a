//! Character-level text utilities: building strings, trimming, splitting,
//! searching, number rendering and number reading.
//!
//! Every contract speaks of a string as the sequence of its characters.

use vstd::prelude::*;
use vstd::string::StringExecFns;
use vstd::string::StrSliceExecFns;
use vstd::utf8::encode_utf8;

verus! {

/// `String::push` appends one character.
pub assume_specification[ String::push ](s: &mut String, c: char)
    ensures
        final(s)@ == old(s)@.push(c),
;

/// `String::push_str` appends the whole of a string slice.
pub assume_specification[ String::push_str ](s: &mut String, other: &str)
    ensures
        final(s)@ == old(s)@ + other@,
;

/// What `str::to_lowercase` answers for a string with these characters.
pub uninterp spec fn lowercase(s: Seq<char>) -> Seq<char>;

/// Is every character in the ASCII range?
pub open spec fn all_ascii(s: Seq<char>) -> bool {
    forall|i: int| 0 <= i < s.len() ==> (#[trigger] s[i] as int) < 128
}

/// The ASCII lower-case form of one character: `A` to `Z` fold, the rest stay.
pub open spec fn ascii_lower(c: char) -> char {
    if 'A' <= c && c <= 'Z' {
        (c as int + 32) as char
    } else {
        c
    }
}

/// Is `c` one of the marks that separate the parts of a name or stand for other
/// characters in a pattern? They have no case.
pub open spec fn is_mark(c: char) -> bool {
    c == '.' || c == '/' || c == '*' || c == '?'
}

/// `str::to_lowercase`. Its answer depends on the characters alone and is
/// called [`lowercase`] here; the full Unicode mapping is not written out. On a
/// string of ASCII characters it folds each letter on its own. On any string it
/// keeps the marks, and makes none: in the Unicode tables by which it is
/// documented to go, a mark has no lower-case form but itself and is in that of
/// no other character.
#[verifier::external_body]
pub(crate) fn to_lower(s: &str) -> (r: String)
    ensures
        r@ == lowercase(s@),
        all_ascii(s@) ==> r@ == s@.map_values(|c: char| ascii_lower(c)),
        forall|c: char| is_mark(c) ==> #[trigger] has_char(r@, c) == has_char(s@, c),
{
    s.to_lowercase()
}

/// The characters of `s`.
pub fn chars_of(s: &str) -> (v: Vec<char>)
    ensures
        v@ == s@,
{
    let mut v: Vec<char> = Vec::new();
    for c in it: s.chars()
        invariant
            it.seq() == s@,
            v@ == s@.take(it.index() as int),
    {
        v.push(c);
        assert(v@ =~= s@.take(it.index() as int + 1));
    }
    assert(v@ =~= s@);
    v
}

/// A string made of the characters `v[from..to]`.
pub fn string_of(v: &Vec<char>, from: usize, to: usize) -> (s: String)
    requires
        from <= to <= v.len(),
    ensures
        s@ == v@.subrange(from as int, to as int),
{
    let mut s: String = String::new();
    let mut i: usize = from;
    while i < to
        invariant
            from <= i <= to <= v.len(),
            s@ == v@.subrange(from as int, i as int),
        decreases to - i,
    {
        s.push(v[i]);
        i += 1;
        assert(s@ =~= v@.subrange(from as int, i as int));
    }
    s
}

/// Are two strings the same characters in the same order? Their bytes say so:
/// each string has an encoding of its own.
pub fn same(a: &str, b: &str) -> (r: bool)
    ensures
        r == (a@ == b@),
{
    let x: &[u8] = a.as_bytes();
    let y: &[u8] = b.as_bytes();
    let n: usize = x.len();
    if n != y.len() {
        return false;
    }
    let mut i: usize = 0;
    while i < n
        invariant
            i <= n == x@.len() == y@.len(),
            x@ == encode_utf8(a@),
            y@ == encode_utf8(b@),
            forall|k: int| 0 <= k < i ==> x@[k] == y@[k],
        decreases n - i,
    {
        if x[i] != y[i] {
            return false;
        }
        i += 1;
    }
    proof {
        assert(x@ =~= y@);
        vstd::utf8::encode_utf8_decode_utf8(a@);
        vstd::utf8::encode_utf8_decode_utf8(b@);
    }
    true
}

/// The characters with the Unicode `White_Space` property.
pub open spec fn is_space(c: char) -> bool {
    let n = c as int;
    ||| 9 <= n <= 13
    ||| n == 32
    ||| n == 0x85
    ||| n == 0xa0
    ||| n == 0x1680
    ||| 0x2000 <= n <= 0x200a
    ||| n == 0x2028
    ||| n == 0x2029
    ||| n == 0x202f
    ||| n == 0x205f
    ||| n == 0x3000
}

pub fn space_char(c: char) -> (r: bool)
    ensures
        r == is_space(c),
{
    let n: u32 = c as u32;
    (9 <= n && n <= 13) || n == 32 || n == 0x85 || n == 0xa0 || n == 0x1680 || (0x2000 <= n && n
        <= 0x200a) || n == 0x2028 || n == 0x2029 || n == 0x202f || n == 0x205f || n == 0x3000
}

/// `s` without its leading whitespace.
pub open spec fn trim_front(s: Seq<char>) -> Seq<char>
    decreases s.len(),
{
    if s.len() > 0 && is_space(s[0]) {
        trim_front(s.drop_first())
    } else {
        s
    }
}

/// `s` without its trailing whitespace.
pub open spec fn trim_back(s: Seq<char>) -> Seq<char>
    decreases s.len(),
{
    if s.len() > 0 && is_space(s.last()) {
        trim_back(s.drop_last())
    } else {
        s
    }
}

/// `s` without leading and trailing whitespace.
pub open spec fn trimmed(s: Seq<char>) -> Seq<char> {
    trim_back(trim_front(s))
}

/// Trimming keeps every character that is not whitespace, and adds none.
pub proof fn trimming_keeps(s: Seq<char>, c: char)
    requires
        !is_space(c),
    ensures
        has_char(trimmed(s), c) == has_char(s, c),
{
    lemma_trim_front_keeps(s, c);
    lemma_trim_back_keeps(trim_front(s), c);
}

proof fn lemma_trim_front_keeps(s: Seq<char>, c: char)
    requires
        !is_space(c),
    ensures
        has_char(trim_front(s), c) == has_char(s, c),
    decreases s.len(),
{
    if s.len() > 0 && is_space(s[0]) {
        let rest = s.drop_first();
        assert forall|i: int| 0 <= i < rest.len() implies rest[i] == s[i + 1] by {}
        if has_char(s, c) {
            let i = choose|i: int| 0 <= i < s.len() && s[i] == c;
            assert(rest[i - 1] == c);
        }
        lemma_trim_front_keeps(rest, c);
    }
}

proof fn lemma_trim_back_keeps(s: Seq<char>, c: char)
    requires
        !is_space(c),
    ensures
        has_char(trim_back(s), c) == has_char(s, c),
    decreases s.len(),
{
    if s.len() > 0 && is_space(s.last()) {
        let rest = s.drop_last();
        assert forall|i: int| 0 <= i < rest.len() implies rest[i] == s[i] by {}
        if has_char(s, c) {
            let i = choose|i: int| 0 <= i < s.len() && s[i] == c;
            assert(rest[i] == c);
        }
        lemma_trim_back_keeps(rest, c);
    }
}

proof fn lemma_trim_front_skip(s: Seq<char>, n: int)
    requires
        0 <= n <= s.len(),
        forall|k: int| 0 <= k < n ==> is_space(#[trigger] s[k]),
    ensures
        trim_front(s) == trim_front(s.skip(n)),
    decreases n,
{
    if n > 0 {
        assert(is_space(s[0]));
        assert forall|k: int| 0 <= k < n - 1 implies is_space(#[trigger] s.drop_first()[k]) by {
            assert(is_space(s[k + 1]));
        }
        lemma_trim_front_skip(s.drop_first(), n - 1);
        assert(s.drop_first().skip(n - 1) =~= s.skip(n));
    } else {
        assert(s.skip(0) =~= s);
    }
}

proof fn lemma_trim_back_take(s: Seq<char>, n: int)
    requires
        0 <= n <= s.len(),
        forall|k: int| n <= k < s.len() ==> is_space(#[trigger] s[k]),
    ensures
        trim_back(s) == trim_back(s.take(n)),
    decreases s.len() - n,
{
    if n < s.len() {
        assert(is_space(s[s.len() - 1]));
        assert forall|k: int| n <= k < s.drop_last().len() implies is_space(
            #[trigger] s.drop_last()[k],
        ) by {
            assert(is_space(s[k]));
        }
        lemma_trim_back_take(s.drop_last(), n);
        assert(s.drop_last().take(n) =~= s.take(n));
    } else {
        assert(s.take(n) =~= s);
    }
}

/// `str::trim`: the slice of `s` between its first and last non-blank
/// characters.
pub fn trim(s: &str) -> (r: &str)
    ensures
        r@ == trimmed(s@),
{
    let v: Vec<char> = chars_of(s);
    let n: usize = v.len();
    let mut i: usize = 0;
    while i < n && space_char(v[i])
        invariant
            i <= n == v.len(),
            forall|k: int| 0 <= k < i ==> is_space(#[trigger] v@[k]),
        decreases n - i,
    {
        i += 1;
    }
    let mut j: usize = n;
    while j > i && space_char(v[j - 1])
        invariant
            i <= j <= n == v.len(),
            forall|k: int| j <= k < n ==> is_space(#[trigger] v@[k]),
        decreases j,
    {
        j -= 1;
    }
    proof {
        lemma_trim_front_skip(v@, i as int);
        let w = v@.skip(i as int);
        assert(trim_front(w) == w);
        let m = j - i;
        assert forall|k: int| m <= k < w.len() implies is_space(#[trigger] w[k]) by {
            assert(is_space(v@[k + i]));
        }
        lemma_trim_back_take(w, m);
        assert(trim_back(w.take(m)) == w.take(m));
        assert(w.take(m) =~= v@.subrange(i as int, j as int));
    }
    s.substring_char(i, j)
}

/// Trimming twice is the same as trimming once.
pub proof fn trim_is_idempotent(s: Seq<char>)
    ensures
        trimmed(trimmed(s)) == trimmed(s),
{
    let f = trim_front(s);
    lemma_trim_front_fixed(s);
    lemma_trim_back_fixed(f);
    let b = trim_back(f);
    assert(trim_front(b) == b);
}

proof fn lemma_trim_front_fixed(s: Seq<char>)
    ensures
        trim_front(s).len() == 0 || !is_space(trim_front(s)[0]),
    decreases s.len(),
{
    if s.len() > 0 && is_space(s[0]) {
        lemma_trim_front_fixed(s.drop_first());
    }
}

proof fn lemma_trim_back_fixed(s: Seq<char>)
    ensures
        trim_back(s).len() == 0 || !is_space(trim_back(s).last()),
        trim_back(s).len() > 0 ==> trim_back(s)[0] == s[0],
        trim_back(trim_back(s)) == trim_back(s),
    decreases s.len(),
{
    if s.len() > 0 && is_space(s.last()) {
        lemma_trim_back_fixed(s.drop_last());
    }
}

/// The index of the first `c` in `s` at or after `from`, or `s.len()`.
pub open spec fn index_from(s: Seq<char>, c: char, from: int) -> int
    decreases s.len() - from,
{
    if from >= s.len() {
        s.len() as int
    } else if s[from] == c {
        from
    } else {
        index_from(s, c, from + 1)
    }
}

/// The pieces of `s` between the separators, starting at `from`. There is
/// always at least one piece.
pub open spec fn pieces_from(s: Seq<char>, sep: char, from: int) -> Seq<Seq<char>>
    decreases s.len() - from,
    when 0 <= from <= s.len()
{
    let at = index_from(s, sep, from);
    if at >= s.len() || at < from {
        seq![s.subrange(from, s.len() as int)]
    } else {
        seq![s.subrange(from, at)] + pieces_from(s, sep, at + 1)
    }
}

/// `s` cut at every `sep`.
pub open spec fn pieces(s: Seq<char>, sep: char) -> Seq<Seq<char>> {
    pieces_from(s, sep, 0)
}

/// The views of a list of strings.
pub open spec fn views(v: Seq<String>) -> Seq<Seq<char>> {
    v.map_values(|s: String| s@)
}

/// A text without the separator is one piece.
pub proof fn uncut_text_is_one_piece(s: Seq<char>, sep: char)
    requires
        !has_char(s, sep),
    ensures
        pieces(s, sep) == seq![s],
{
    lemma_index_from_step(s, sep, 0, s.len() as int);
    assert(s.subrange(0, s.len() as int) =~= s);
}

/// A text with one separator is the two pieces on either side of it.
pub proof fn two_pieces(x: Seq<char>, y: Seq<char>, sep: char)
    requires
        !has_char(x, sep),
        !has_char(y, sep),
    ensures
        pieces(x + seq![sep] + y, sep) == seq![x, y],
{
    let s = x + seq![sep] + y;
    let n = x.len() as int;
    assert forall|k: int| 0 <= k < n implies #[trigger] s[k] != sep by {
        assert(s[k] == x[k]);
    }
    lemma_index_from_step(s, sep, 0, n);
    assert(s[n] == sep);
    assert forall|k: int| n + 1 <= k < s.len() implies #[trigger] s[k] != sep by {
        assert(s[k] == y[k - n - 1]);
    }
    lemma_index_from_step(s, sep, n + 1, s.len() as int);
    assert(index_from(s, sep, 0) == n);
    assert(index_from(s, sep, n + 1) == s.len());
    assert(s.subrange(0, n) =~= x);
    assert(s.subrange(n + 1, s.len() as int) =~= y);
    assert(pieces_from(s, sep, n + 1) =~= seq![y]);
    assert(seq![x] + seq![y] =~= seq![x, y]);
}

proof fn lemma_index_from_step(s: Seq<char>, c: char, from: int, to: int)
    requires
        0 <= from <= to <= s.len(),
        forall|k: int| from <= k < to ==> #[trigger] s[k] != c,
    ensures
        index_from(s, c, from) == index_from(s, c, to),
    decreases to - from,
{
    if from < to {
        lemma_index_from_step(s, c, from + 1, to);
    }
}

/// `str::split` on one character.
pub fn split(s: &str, sep: char) -> (r: Vec<String>)
    ensures
        views(r@) == pieces(s@, sep),
        r.len() > 0,
{
    let v: Vec<char> = chars_of(s);
    let mut out: Vec<String> = Vec::new();
    let mut start: usize = 0;
    let mut i: usize = 0;
    while i < v.len()
        invariant
            start <= i <= v.len(),
            v@ == s@,
            forall|k: int| start <= k < i ==> #[trigger] v@[k] != sep,
            views(out@) + pieces_from(s@, sep, start as int) == pieces(s@, sep),
        decreases v.len() - i,
    {
        if v[i] == sep {
            let piece: String = string_of(&v, start, i);
            proof {
                lemma_index_from_step(s@, sep, start as int, i as int);
                assert(views(out@.push(piece)) =~= views(out@).push(piece@));
                assert(views(out@).push(piece@) + pieces_from(s@, sep, i + 1) =~= views(out@) + (
                seq![piece@] + pieces_from(s@, sep, i + 1)));
            }
            out.push(piece);
            start = i + 1;
        }
        i += 1;
    }
    let piece: String = string_of(&v, start, i);
    proof {
        lemma_index_from_step(s@, sep, start as int, i as int);
        assert(views(out@.push(piece)) =~= views(out@) + seq![piece@]);
    }
    out.push(piece);
    out
}

/// Does `c` occur in `s`?
pub open spec fn has_char(s: Seq<char>, c: char) -> bool {
    exists|i: int| 0 <= i < s.len() && s[i] == c
}

pub fn contains_char(s: &str, c: char) -> (r: bool)
    ensures
        r == has_char(s@, c),
{
    let v: Vec<char> = chars_of(s);
    let mut i: usize = 0;
    while i < v.len()
        invariant
            i <= v.len(),
            v@ == s@,
            forall|k: int| 0 <= k < i ==> v@[k] != c,
        decreases v.len() - i,
    {
        if v[i] == c {
            assert(s@[i as int] == c);
            return true;
        }
        i += 1;
    }
    false
}

/// Does `needle` occur in `hay` at position `at`?
pub open spec fn occurs_at(hay: Seq<char>, needle: Seq<char>, at: int) -> bool {
    0 <= at && at + needle.len() <= hay.len() && hay.subrange(at, at + needle.len()) == needle
}

/// Does `needle` occur anywhere in `hay`? (The empty needle always does.)
pub open spec fn has_infix(hay: Seq<char>, needle: Seq<char>) -> bool {
    exists|at: int| occurs_at(hay, needle, at)
}

pub fn matches_at(hay: &Vec<char>, needle: &Vec<char>, at: usize) -> (r: bool)
    requires
        at <= hay.len(),
    ensures
        r == occurs_at(hay@, needle@, at as int),
{
    if needle.len() > hay.len() - at {
        return false;
    }
    let mut k: usize = 0;
    while k < needle.len()
        invariant
            k <= needle.len(),
            at + needle.len() <= hay.len(),
            forall|j: int| 0 <= j < k ==> hay@[at + j] == #[trigger] needle@[j],
        decreases needle.len() - k,
    {
        if hay[at + k] != needle[k] {
            proof {
                assert(hay@.subrange(at as int, at + needle.len())[k as int] != needle@[k as int]);
            }
            return false;
        }
        k += 1;
    }
    assert(hay@.subrange(at as int, at + needle.len()) =~= needle@);
    true
}

/// The first position where `needle` occurs in `hay`.
pub fn find_chars(hay: &Vec<char>, needle: &Vec<char>) -> (r: Option<usize>)
    ensures
        match r {
            Some(at) => occurs_at(hay@, needle@, at as int) && forall|k: int|
                0 <= k < at ==> !occurs_at(hay@, needle@, k),
            None => !has_infix(hay@, needle@),
        },
{
    let mut at: usize = 0;
    while at < hay.len()
        invariant
            at <= hay.len(),
            forall|k: int| 0 <= k < at ==> !occurs_at(hay@, needle@, k),
        decreases hay.len() - at,
    {
        if matches_at(hay, needle, at) {
            return Some(at);
        }
        at += 1;
    }
    if matches_at(hay, needle, at) {
        return Some(at);
    }
    assert forall|k: int| !occurs_at(hay@, needle@, k) by {}
    None
}

/// The first position at or after `from` where `needle` occurs in `hay`.
pub open spec fn find_from(hay: Seq<char>, needle: Seq<char>, from: int) -> Option<int>
    decreases hay.len() + 1 - from,
{
    if from > hay.len() {
        None
    } else if occurs_at(hay, needle, from) {
        Some(from)
    } else {
        find_from(hay, needle, from + 1)
    }
}

/// What is found is the first occurrence; past the end there is none.
pub proof fn find_is_first(hay: Seq<char>, needle: Seq<char>, at: int)
    requires
        0 <= at <= hay.len() + 1,
        forall|k: int| 0 <= k < at ==> !#[trigger] occurs_at(hay, needle, k),
        at <= hay.len() ==> occurs_at(hay, needle, at),
    ensures
        find_from(hay, needle, 0) == if at <= hay.len() {
            Some(at)
        } else {
            None
        },
{
    lemma_find_from(hay, needle, 0, at);
}

proof fn lemma_find_from(hay: Seq<char>, needle: Seq<char>, from: int, to: int)
    requires
        0 <= from <= to <= hay.len() + 1,
        forall|k: int| from <= k < to ==> !#[trigger] occurs_at(hay, needle, k),
    ensures
        find_from(hay, needle, from) == find_from(hay, needle, to),
    decreases to - from,
{
    if from < to {
        assert(!occurs_at(hay, needle, from));
        lemma_find_from(hay, needle, from + 1, to);
    }
}

/// `str::find` for a string slice, counting characters.
pub fn find_str(hay: &Vec<char>, needle: &str) -> (r: Option<usize>)
    ensures
        match r {
            Some(at) => find_from(hay@, needle@, 0) == Some(at as int) && at + needle@.len()
                <= hay.len(),
            None => find_from(hay@, needle@, 0) is None,
        },
{
    let n: Vec<char> = chars_of(needle);
    let found: Option<usize> = find_chars(hay, &n);
    proof {
        match found {
            Some(at) => {
                lemma_find_from(hay@, needle@, 0, at as int);
            },
            None => {
                assert forall|k: int| 0 <= k < hay@.len() + 1 implies !#[trigger] occurs_at(
                    hay@,
                    needle@,
                    k,
                ) by {
                    assert(!has_infix(hay@, needle@));
                }
                lemma_find_from(hay@, needle@, 0, hay@.len() as int + 1);
            },
        }
    }
    found
}

/// The number of bytes a string takes.
pub open spec fn byte_len(s: Seq<char>) -> nat {
    vstd::utf8::encode_utf8(s).len()
}

pub fn bytes_in(s: &str) -> (n: usize)
    ensures
        n == byte_len(s@),
{
    s.as_bytes().len()
}

/// `str::contains` for a string slice.
pub fn contains_str(hay: &str, needle: &str) -> (r: bool)
    ensures
        r == has_infix(hay@, needle@),
{
    let h: Vec<char> = chars_of(hay);
    let n: Vec<char> = chars_of(needle);
    let found: Option<usize> = find_chars(&h, &n);
    match found {
        Some(at) => {
            assert(occurs_at(hay@, needle@, at as int));
            true
        },
        None => false,
    }
}

/// Does `s` start with `p`?
pub open spec fn has_prefix(s: Seq<char>, p: Seq<char>) -> bool {
    occurs_at(s, p, 0)
}

pub fn starts_with(s: &str, p: &str) -> (r: bool)
    ensures
        r == has_prefix(s@, p@),
{
    let h: Vec<char> = chars_of(s);
    let n: Vec<char> = chars_of(p);
    matches_at(&h, &n, 0)
}

/// The strings of `parts` with `sep` between neighbours.
pub open spec fn joined(parts: Seq<Seq<char>>, sep: Seq<char>) -> Seq<char>
    decreases parts.len(),
{
    if parts.len() == 0 {
        Seq::empty()
    } else if parts.len() == 1 {
        parts[0]
    } else {
        joined(parts.drop_last(), sep) + sep + parts.last()
    }
}

pub fn join(parts: &Vec<String>, sep: &str) -> (r: String)
    ensures
        r@ == joined(views(parts@), sep@),
{
    let mut out: String = String::new();
    let mut i: usize = 0;
    proof {
        assert(views(parts@).take(0) =~= Seq::empty());
    }
    while i < parts.len()
        invariant
            i <= parts.len(),
            out@ == joined(views(parts@).take(i as int), sep@),
        decreases parts.len() - i,
    {
        if i > 0 {
            out.push_str(sep);
        }
        out.push_str(parts[i].as_str());
        proof {
            let w = views(parts@).take(i + 1);
            assert(w.drop_last() =~= views(parts@).take(i as int));
            assert(w.last() == parts@[i as int]@);
            if i == 0 {
                assert(out@ =~= w[0]);
            }
        }
        i += 1;
    }
    assert(views(parts@).take(i as int) =~= views(parts@));
    out
}

/// `n` copies of one character.
pub open spec fn repeated(c: char, n: nat) -> Seq<char> {
    Seq::new(n, |i: int| c)
}

pub fn repeat(c: char, n: usize) -> (r: String)
    ensures
        r@ == repeated(c, n as nat),
{
    let mut out: String = String::new();
    let mut i: usize = 0;
    assert(out@ =~= repeated(c, 0));
    while i < n
        invariant
            i <= n,
            out@ == repeated(c, i as nat),
        decreases n - i,
    {
        out.push(c);
        i += 1;
        assert(out@ =~= repeated(c, i as nat));
    }
    out
}

/// `s` padded on the right with spaces to at least `width` characters.
pub open spec fn left_justified(s: Seq<char>, width: nat) -> Seq<char> {
    if s.len() >= width {
        s
    } else {
        s + repeated(' ', (width - s.len()) as nat)
    }
}

/// `s` padded on the left with spaces to at least `width` characters.
pub open spec fn right_justified(s: Seq<char>, width: nat) -> Seq<char> {
    if s.len() >= width {
        s
    } else {
        repeated(' ', (width - s.len()) as nat) + s
    }
}

/// Left-justify for text tables: pads on the right, never truncates.
pub fn ljust(s: &str, width: usize) -> (r: String)
    ensures
        r@ == left_justified(s@, width as nat),
{
    let len: usize = s.unicode_len();
    let mut out: String = s.to_owned();
    if len < width {
        let pad: String = repeat(' ', width - len);
        out.push_str(pad.as_str());
    }
    out
}

/// Right-justify for text tables: pads on the left, never truncates.
pub fn rjust(s: &str, width: usize) -> (r: String)
    ensures
        r@ == right_justified(s@, width as nat),
{
    let len: usize = s.unicode_len();
    if len >= width {
        return s.to_owned();
    }
    let mut out: String = repeat(' ', width - len);
    out.push_str(s);
    out
}

/// The views of an optional string.
pub open spec fn opt_view(s: Option<String>) -> Option<Seq<char>> {
    match s {
        Some(v) => Some(v@),
        None => None,
    }
}

pub fn clone_opt(s: &Option<String>) -> (r: Option<String>)
    ensures
        opt_view(r) == opt_view(*s),
{
    match s {
        Some(v) => Some(v.clone()),
        None => None,
    }
}

pub fn clone_strings(v: &Vec<String>) -> (r: Vec<String>)
    ensures
        views(r@) == views(v@),
        r.len() == v.len(),
{
    let mut out: Vec<String> = Vec::new();
    let mut i: usize = 0;
    while i < v.len()
        invariant
            i <= v.len(),
            views(out@) == views(v@).take(i as int),
        decreases v.len() - i,
    {
        let ghost before = out@;
        let piece: String = v[i].clone();
        out.push(piece);
        proof {
            assert(views(out@) =~= views(before).push(piece@));
            assert(views(out@) =~= views(v@).take(i + 1));
        }
        i += 1;
    }
    assert(views(out@) =~= views(v@));
    out
}

} // verus!
