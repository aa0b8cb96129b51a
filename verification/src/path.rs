//! File names: which reader a file goes to.

use vstd::prelude::*;

use crate::backend::BackendError;
use crate::text::{ascii_lower, chars_of, opt_view, pieces, same, split, views};

verus! {

/// The last part of a path that is neither empty nor `.`.
pub open spec fn last_component(parts: Seq<Seq<char>>) -> Option<Seq<char>>
    decreases parts.len(),
{
    if parts.len() == 0 {
        None
    } else if parts.last().len() == 0 || parts.last() == "."@ {
        last_component(parts.drop_last())
    } else {
        Some(parts.last())
    }
}

/// The position of the last dot, or -1.
pub open spec fn last_dot(s: Seq<char>) -> int
    decreases s.len(),
{
    if s.len() == 0 {
        -1
    } else if s.last() == '.' {
        s.len() - 1
    } else {
        last_dot(s.drop_last())
    }
}

/// The extension of a file name, in lower case: what follows its last dot. A
/// leading dot does not count, and `..` is no file name.
pub open spec fn extension(path: Seq<char>) -> Option<Seq<char>> {
    match last_component(pieces(path, '/')) {
        None => None,
        Some(name) => if name == ".."@ || last_dot(name) <= 0 {
            None
        } else {
            Some(name.skip(last_dot(name) + 1).map_values(|c: char| ascii_lower(c)))
        },
    }
}

/// The extension of a file name, in lower case; empty if there is none.
pub open spec fn file_extension(path: Seq<char>) -> Seq<char> {
    match extension(path) {
        Some(e) => e,
        None => Seq::empty(),
    }
}

fn find_last_dot(v: &Vec<char>) -> (r: Option<usize>)
    ensures
        match r {
            Some(i) => i < v.len() && last_dot(v@) == i,
            None => last_dot(v@) == -1,
        },
{
    let mut i: usize = v.len();
    assert(v@.take(i as int) =~= v@);
    while i > 0
        invariant
            i <= v.len(),
            last_dot(v@) == last_dot(v@.take(i as int)),
        decreases i,
    {
        assert(v@.take(i as int).last() == v@[i - 1]);
        assert(v@.take(i as int).drop_last() =~= v@.take(i - 1));
        if v[i - 1] == '.' {
            return Some(i - 1);
        }
        i -= 1;
    }
    assert(v@.take(0) =~= Seq::empty());
    None
}

fn lower_char(c: char) -> (r: char)
    ensures
        r == ascii_lower(c),
{
    if 'A' <= c && c <= 'Z' {
        (c as u8 + 32u8) as char
    } else {
        c
    }
}

/// The last part of a path that is neither empty nor `.`.
pub fn last_name(path: &str) -> (r: Option<String>)
    ensures
        opt_view(r) == last_component(pieces(path@, '/')),
{
    let parts: Vec<String> = split(path, '/');
    let ghost ps = views(parts@);
    let mut n: usize = parts.len();
    assert(ps.take(n as int) =~= ps);
    while n > 0
        invariant
            n <= parts.len(),
            ps == views(parts@),
            ps == pieces(path@, '/'),
            last_component(ps) == last_component(ps.take(n as int)),
        decreases n,
    {
        let name: &str = parts[n - 1].as_str();
        proof {
            assert(ps.take(n as int).last() == name@);
            assert(ps.take(n as int).drop_last() =~= ps.take(n - 1));
        }
        if !name.is_empty() && !same(name, ".") {
            return Some(name.to_owned());
        }
        n -= 1;
    }
    assert(ps.take(0) =~= Seq::empty());
    None
}

fn lowered(v: &Vec<char>, from: usize) -> (r: String)
    requires
        from <= v@.len(),
    ensures
        r@ == v@.skip(from as int).map_values(|c: char| ascii_lower(c)),
{
    let ghost tail = v@.skip(from as int);
    let mut out: String = String::new();
    let mut i: usize = from;
    assert(out@ =~= tail.take(0).map_values(|c: char| ascii_lower(c)));
    while i < v.len()
        invariant
            from <= i <= v.len(),
            tail == v@.skip(from as int),
            out@ == tail.take(i - from).map_values(|c: char| ascii_lower(c)),
        decreases v.len() - i,
    {
        out.push(lower_char(v[i]));
        assert(tail[i - from] == v@[i as int]);
        assert(out@ =~= tail.take(i - from + 1).map_values(|c: char| ascii_lower(c)));
        i += 1;
    }
    assert(tail.take(i - from) =~= tail);
    out
}

/// The extension of a file name, in lower case.
pub fn find_extension(path: &str) -> (r: Option<String>)
    ensures
        opt_view(r) == extension(path@),
{
    match last_name(path) {
        None => None,
        Some(name) => {
            if same(name.as_str(), "..") {
                return None;
            }
            let v: Vec<char> = chars_of(name.as_str());
            match find_last_dot(&v) {
                None => None,
                Some(dot) => {
                    if dot == 0 {
                        return None;
                    }
                    Some(lowered(&v, dot + 1))
                },
            }
        },
    }
}

/// The extension of a file name, in lower case; empty if there is none.
pub fn extract_extension(path: &str) -> (r: String)
    ensures
        r@ == file_extension(path@),
{
    match find_extension(path) {
        Some(e) => e,
        None => String::new(),
    }
}

/// Is the extension one of the formats read directly?
pub open spec fn built_in(ext: Seq<char>) -> bool {
    ext == "vcd"@ || ext == "fst"@ || ext == "ghw"@
}

pub fn is_built_in_extension(ext: &str) -> (r: bool)
    ensures
        r == built_in(ext@),
{
    same(ext, "vcd") || same(ext, "fst") || same(ext, "ghw")
}

/// Which reader opens a file.
pub enum Reader {
    /// The built-in one, which recognises the format by the file's contents.
    BuiltIn,
    /// The plugin for this extension.
    Plugin(String),
}

/// Choose the reader of a file: files with an extension of another format go
/// to the plugin for it.
pub fn reader_for(path: &str) -> (r: Reader)
    ensures
        match r {
            Reader::BuiltIn => file_extension(path@).len() == 0 || built_in(
                file_extension(path@),
            ),
            Reader::Plugin(e) => e@ == file_extension(path@) && e@.len() > 0 && !built_in(e@),
        },
{
    let ext: String = extract_extension(path);
    if ext.as_str().is_empty() || is_built_in_extension(ext.as_str()) {
        Reader::BuiltIn
    } else {
        Reader::Plugin(ext)
    }
}

/// Why a waveform could not be loaded.
#[derive(Debug)]
pub enum ModelError {
    Open(String),
    Load(String),
}

impl ModelError {
    /// What went wrong with the reader, as the model reports it.
    pub fn of(e: BackendError) -> (r: ModelError)
        ensures
            r == match e {
                BackendError::Open(m) => ModelError::Open(m),
                BackendError::Parse(m) => ModelError::Load(m),
            },
    {
        match e {
            BackendError::Open(m) => ModelError::Open(m),
            BackendError::Parse(m) => ModelError::Load(m),
        }
    }

    /// The text of the error.
    pub fn message(&self) -> (s: String)
        ensures
            s@ == match self {
                ModelError::Open(m) => m@,
                ModelError::Load(m) => m@,
            },
    {
        match self {
            ModelError::Open(m) => m.clone(),
            ModelError::Load(m) => m.clone(),
        }
    }
}

} // verus!
