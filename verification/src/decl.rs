//! What the declarations of a waveform file say: types, widths, names, units.

use vstd::prelude::*;

use crate::backend::BackendError;
use crate::format::ValueKind;
use crate::handles::HandleMap;
use crate::number::{dec, dec_int, i64_text, u64_text};
use crate::signal::BackendSid;
use crate::text::{chars_of, string_of};

verus! {

/// The type that a variable is declared with.
#[derive(Debug, Clone, Copy, PartialEq, Eq, Structural)]
pub enum DeclaredType {
    Event,
    Integer,
    Parameter,
    Real,
    Reg,
    Supply0,
    Supply1,
    Time,
    Tri,
    TriAnd,
    TriOr,
    TriReg,
    Tri0,
    Tri1,
    WAnd,
    Wire,
    WOr,
    Text,
    Port,
    SparseArray,
    RealTime,
    RealParameter,
    Bit,
    Logic,
    Int,
    ShortInt,
    LongInt,
    Byte,
    Enum,
    ShortReal,
    Boolean,
    BitVector,
    StdLogic,
    StdLogicVector,
    StdULogic,
    StdULogicVector,
    EventParameter,
}

/// The name of a type.
pub open spec fn type_word(t: DeclaredType) -> Seq<char> {
    match t {
        DeclaredType::Event => "event"@,
        DeclaredType::Integer => "integer"@,
        DeclaredType::Parameter => "parameter"@,
        DeclaredType::Real => "real"@,
        DeclaredType::Reg => "reg"@,
        DeclaredType::Supply0 => "supply0"@,
        DeclaredType::Supply1 => "supply1"@,
        DeclaredType::Time => "time"@,
        DeclaredType::Tri => "tri"@,
        DeclaredType::TriAnd => "triand"@,
        DeclaredType::TriOr => "trior"@,
        DeclaredType::TriReg => "trireg"@,
        DeclaredType::Tri0 => "tri0"@,
        DeclaredType::Tri1 => "tri1"@,
        DeclaredType::WAnd => "wand"@,
        DeclaredType::Wire => "wire"@,
        DeclaredType::WOr => "wor"@,
        DeclaredType::Text => "string"@,
        DeclaredType::Port => "port"@,
        DeclaredType::SparseArray => "sparsearray"@,
        DeclaredType::RealTime => "realtime"@,
        DeclaredType::RealParameter => "realparameter"@,
        DeclaredType::Bit => "bit"@,
        DeclaredType::Logic => "logic"@,
        DeclaredType::Int => "int"@,
        DeclaredType::ShortInt => "shortint"@,
        DeclaredType::LongInt => "longint"@,
        DeclaredType::Byte => "byte"@,
        DeclaredType::Enum => "enum"@,
        DeclaredType::ShortReal => "shortreal"@,
        DeclaredType::Boolean => "boolean"@,
        DeclaredType::BitVector => "bit_vector"@,
        DeclaredType::StdLogic => "std_logic"@,
        DeclaredType::StdLogicVector => "std_logic_vector"@,
        DeclaredType::StdULogic => "std_ulogic"@,
        DeclaredType::StdULogicVector => "std_ulogic_vector"@,
        DeclaredType::EventParameter => "event"@,
    }
}

/// How the values of a variable of a type are written.
pub open spec fn type_kind(t: DeclaredType) -> ValueKind {
    match t {
        DeclaredType::Event | DeclaredType::EventParameter => ValueKind::Event,
        DeclaredType::Real | DeclaredType::RealTime | DeclaredType::RealParameter
        | DeclaredType::ShortReal => ValueKind::Real,
        DeclaredType::Text => ValueKind::Str,
        _ => ValueKind::Bits,
    }
}

/// The name of a type and how its values are written.
pub fn vartype_to_str_kind(t: DeclaredType) -> (r: (&'static str, ValueKind))
    ensures
        r.0@ == type_word(t),
        r.1 == type_kind(t),
{
    match t {
        DeclaredType::Event => ("event", ValueKind::Event),
        DeclaredType::Integer => ("integer", ValueKind::Bits),
        DeclaredType::Parameter => ("parameter", ValueKind::Bits),
        DeclaredType::Real => ("real", ValueKind::Real),
        DeclaredType::Reg => ("reg", ValueKind::Bits),
        DeclaredType::Supply0 => ("supply0", ValueKind::Bits),
        DeclaredType::Supply1 => ("supply1", ValueKind::Bits),
        DeclaredType::Time => ("time", ValueKind::Bits),
        DeclaredType::Tri => ("tri", ValueKind::Bits),
        DeclaredType::TriAnd => ("triand", ValueKind::Bits),
        DeclaredType::TriOr => ("trior", ValueKind::Bits),
        DeclaredType::TriReg => ("trireg", ValueKind::Bits),
        DeclaredType::Tri0 => ("tri0", ValueKind::Bits),
        DeclaredType::Tri1 => ("tri1", ValueKind::Bits),
        DeclaredType::WAnd => ("wand", ValueKind::Bits),
        DeclaredType::Wire => ("wire", ValueKind::Bits),
        DeclaredType::WOr => ("wor", ValueKind::Bits),
        DeclaredType::Text => ("string", ValueKind::Str),
        DeclaredType::Port => ("port", ValueKind::Bits),
        DeclaredType::SparseArray => ("sparsearray", ValueKind::Bits),
        DeclaredType::RealTime => ("realtime", ValueKind::Real),
        DeclaredType::RealParameter => ("realparameter", ValueKind::Real),
        DeclaredType::Bit => ("bit", ValueKind::Bits),
        DeclaredType::Logic => ("logic", ValueKind::Bits),
        DeclaredType::Int => ("int", ValueKind::Bits),
        DeclaredType::ShortInt => ("shortint", ValueKind::Bits),
        DeclaredType::LongInt => ("longint", ValueKind::Bits),
        DeclaredType::Byte => ("byte", ValueKind::Bits),
        DeclaredType::Enum => ("enum", ValueKind::Bits),
        DeclaredType::ShortReal => ("shortreal", ValueKind::Real),
        DeclaredType::Boolean => ("boolean", ValueKind::Bits),
        DeclaredType::BitVector => ("bit_vector", ValueKind::Bits),
        DeclaredType::StdLogic => ("std_logic", ValueKind::Bits),
        DeclaredType::StdLogicVector => ("std_logic_vector", ValueKind::Bits),
        DeclaredType::StdULogic => ("std_ulogic", ValueKind::Bits),
        DeclaredType::StdULogicVector => ("std_ulogic_vector", ValueKind::Bits),
        DeclaredType::EventParameter => ("event", ValueKind::Event),
    }
}

/// The width of a variable: the length of its values where that is known and
/// not zero, else the width of its declared range, else one.
pub fn var_width(length: Option<u32>, range_width: Option<u32>) -> (w: u32)
    ensures
        w == (if length matches Some(n) && n > 0 {
            length->0
        } else if range_width is Some {
            range_width->0
        } else {
            1
        }),
{
    match length {
        Some(n) if n > 0 => n,
        _ => match range_width {
            Some(w) => w,
            None => 1,
        },
    }
}

/// A full name without its last `.` and local name. Empty where the full name
/// does not end so, or where nothing stands before the dot.
pub open spec fn scope_name(full: Seq<char>, local: Seq<char>) -> Seq<char> {
    let at = full.len() - local.len() - 1;
    if at > 0 && full.subrange(at + 1, full.len() as int) == local && full[at] == '.' {
        full.take(at)
    } else {
        Seq::empty()
    }
}

/// The name as shown: a vector of more than one bit has its range behind it.
pub open spec fn shown_name(
    full: Seq<char>,
    range: Option<(i64, i64)>,
    length: Option<u32>,
) -> Seq<char> {
    match range {
        Some((msb, lsb)) => if length matches Some(n) && n > 1 {
            full + "["@ + dec_int(msb as int) + ":"@ + dec_int(lsb as int) + "]"@
        } else {
            full
        },
        None => full,
    }
}

/// The shown name of a variable and the name of its scope. `range` is the
/// declared range, high bit first, and `length` the length of the values.
pub fn display_and_scope(
    full: &str,
    local: &str,
    range: Option<(i64, i64)>,
    length: Option<u32>,
) -> (r: (String, String))
    ensures
        r.0@ == shown_name(full@, range, length),
        r.1@ == scope_name(full@, local@),
{
    let scope: String = scope_before(full, local);
    let wide: bool = match length {
        Some(n) => n > 1,
        None => false,
    };
    let mut shown: String = full.to_owned();
    if wide {
        if let Some((msb, lsb)) = range {
            shown.append("[");
            shown.append(i64_text(msb).as_str());
            shown.append(":");
            shown.append(i64_text(lsb).as_str());
            shown.append("]");
        }
    }
    (shown, scope)
}

fn scope_before(full: &str, local: &str) -> (s: String)
    ensures
        s@ == scope_name(full@, local@),
{
    let f: Vec<char> = chars_of(full);
    let l: Vec<char> = chars_of(local);
    let n: usize = f.len();
    let m: usize = l.len();
    if n <= m || n - m - 1 == 0 {
        return String::new();
    }
    let at: usize = n - m - 1;
    if f[at] != '.' {
        return String::new();
    }
    let mut i: usize = 0;
    while i < m
        invariant
            i <= m,
            n == f.len(),
            m == l.len(),
            f@ == full@,
            l@ == local@,
            at == n - m - 1,
            0 < at < n,
            forall|k: int| 0 <= k < i ==> f@[at + 1 + k] == #[trigger] l@[k],
        decreases m - i,
    {
        if f[at + 1 + i] != l[i] {
            assert(full@.subrange(at + 1, n as int)[i as int] != local@[i as int]);
            return String::new();
        }
        i += 1;
    }
    assert(full@.subrange(at + 1, n as int) =~= local@);
    let s: String = string_of(&f, 0, at);
    assert(s@ =~= full@.take(at as int));
    s
}

/// The unit of a timescale.
#[derive(Debug, Clone, Copy, PartialEq, Eq, Structural)]
pub enum Unit {
    Zepto,
    Atto,
    Femto,
    Pico,
    Nano,
    Micro,
    Milli,
    Second,
    Unknown,
}

/// The sign of a unit.
pub open spec fn unit_sign(u: Unit) -> Seq<char> {
    match u {
        Unit::Zepto => "zs"@,
        Unit::Atto => "as"@,
        Unit::Femto => "fs"@,
        Unit::Pico => "ps"@,
        Unit::Nano => "ns"@,
        Unit::Micro => "us"@,
        Unit::Milli => "ms"@,
        Unit::Second => "s"@,
        Unit::Unknown => ""@,
    }
}

pub fn unit_str(u: Unit) -> (s: &'static str)
    ensures
        s@ == unit_sign(u),
{
    match u {
        Unit::Zepto => "zs",
        Unit::Atto => "as",
        Unit::Femto => "fs",
        Unit::Pico => "ps",
        Unit::Nano => "ns",
        Unit::Micro => "us",
        Unit::Milli => "ms",
        Unit::Second => "s",
        Unit::Unknown => "",
    }
}

/// A timescale as it is shown, such as `10ps`; empty where none is declared. A
/// factor of zero is shown as one.
pub fn timescale_display(scale: Option<(u32, Unit)>) -> (s: String)
    ensures
        s@ == match scale {
            Some((factor, unit)) => dec(
                if factor == 0 {
                    1
                } else {
                    factor as nat
                },
            ) + unit_sign(unit),
            None => ""@,
        },
{
    match scale {
        Some((factor, unit)) => {
            let shown: u64 = if factor == 0 {
                1
            } else {
                factor as u64
            };
            let mut s: String = u64_text(shown);
            s.append(unit_str(unit));
            s
        },
        None => "".to_owned(),
    }
}

/// The first and the last of the recorded times.
pub fn time_span(table: &[u64]) -> (r: Option<(i64, i64)>)
    ensures
        r == (if table@.len() == 0 {
            None
        } else {
            Some((table@[0] as i64, table@.last() as i64))
        }),
{
    let n: usize = table.len();
    if n == 0 {
        None
    } else {
        Some((#[verifier::truncate] (table[0] as i64), #[verifier::truncate] (table[n - 1] as i64)))
    }
}

/// What the file system says of a path.
#[derive(Debug, Clone, Copy, PartialEq, Eq, Structural)]
pub enum FileState {
    Missing,
    Forbidden,
    Directory,
    Present,
}

/// Can the file be opened at all?
pub fn check_file(path: &str, state: FileState) -> (r: Result<(), BackendError>)
    ensures
        match state {
            FileState::Missing => r matches Err(BackendError::Open(m)) && m@
                == "cannot open waveform file: "@ + path@,
            FileState::Forbidden => r matches Err(BackendError::Open(m)) && m@
                == "permission denied: "@ + path@,
            FileState::Directory => r matches Err(BackendError::Open(m)) && m@ == "not a file: "@
                + path@,
            FileState::Present => r is Ok,
        },
{
    let problem: &str = match state {
        FileState::Missing => "cannot open waveform file: ",
        FileState::Forbidden => "permission denied: ",
        FileState::Directory => "not a file: ",
        FileState::Present => return Ok(()),
    };
    let mut m: String = problem.to_owned();
    m.append(path);
    Err(BackendError::Open(m))
}

/// Does a handle occur among those asked for?
pub open spec fn asked_for(sids: Seq<BackendSid>, handle: usize) -> bool {
    exists|i: int| 0 <= i < sids.len() && (#[trigger] sids[i]).0 == handle
}

/// Are the numbers strictly increasing?
pub open spec fn ascending(v: Seq<usize>) -> bool {
    forall|i: int, j: int| 0 <= i < j < v.len() ==> #[trigger] v[i] < #[trigger] v[j]
}

/// The handles asked for that are not yet loaded, each once, in ascending
/// order. The keys of `loaded` are the loaded handles.
pub fn handles_to_load(loaded: &HandleMap, sids: &Vec<BackendSid>) -> (r: Vec<usize>)
    ensures
        ascending(r@),
        forall|h: usize| #[trigger]
            r@.contains(h) <==> asked_for(sids@, h) && !loaded@.contains_key(h),
{
    let mut r: Vec<usize> = Vec::new();
    let mut i: usize = 0;
    while i < sids.len()
        invariant
            i <= sids.len(),
            ascending(r@),
            forall|h: usize| #[trigger]
                r@.contains(h) <==> asked_for(sids@.take(i as int), h) && !loaded@.contains_key(h),
        decreases sids.len() - i,
    {
        let handle: usize = sids[i].0;
        let ghost before = r@;
        let known: Option<usize> = loaded.get(handle);
        if known.is_none() {
            place(&mut r, handle);
        }
        i += 1;
        assert forall|h: usize| #[trigger] r@.contains(h) <==> asked_for(sids@.take(i as int), h)
            && !loaded@.contains_key(h) by {
            assert(before.contains(h) <==> asked_for(sids@.take(i - 1), h)
                && !loaded@.contains_key(h));
            lemma_asked(sids@, i as int, h);
        }
    }
    assert(sids@.take(i as int) =~= sids@);
    r
}

proof fn lemma_asked(sids: Seq<BackendSid>, n: int, h: usize)
    requires
        0 < n <= sids.len(),
    ensures
        asked_for(sids.take(n), h) <==> asked_for(sids.take(n - 1), h) || sids[n - 1].0 == h,
{
    let a = sids.take(n - 1);
    let b = sids.take(n);
    if asked_for(a, h) {
        let i = choose|i: int| 0 <= i < a.len() && (#[trigger] a[i]).0 == h;
        assert(b[i].0 == h);
    }
    if sids[n - 1].0 == h {
        assert(b[n - 1].0 == h);
    }
    if asked_for(b, h) {
        let i = choose|i: int| 0 <= i < b.len() && (#[trigger] b[i]).0 == h;
        if i < n - 1 {
            assert(a[i].0 == h);
        }
    }
}

/// Put a number into an ascending list, unless it is there.
fn place(v: &mut Vec<usize>, x: usize)
    requires
        ascending(old(v)@),
    ensures
        ascending(final(v)@),
        forall|h: usize| #[trigger] final(v)@.contains(h) <==> old(v)@.contains(h) || h == x,
{
    let ghost was = v@;
    let mut at: usize = v.len();
    while at > 0 && v[at - 1] >= x
        invariant
            at <= v.len(),
            v@ == was,
            ascending(was),
            forall|k: int| at <= k < was.len() ==> was[k] >= x,
        decreases at,
    {
        at -= 1;
    }
    if at < v.len() && v[at] == x {
        assert(was[at as int] == x);
        assert forall|h: usize| #[trigger] v@.contains(h) <==> was.contains(h) || h == x by {
            if h == x {
                assert(was[at as int] == h);
            }
        }
        return;
    }
    v.insert(at, x);
    assert forall|i: int, j: int| 0 <= i < j < v@.len() implies #[trigger] v@[i] < #[trigger] v@[j] by {
        if at > 0 {
            assert(was[at - 1] < x);
        }
    }
    assert forall|h: usize| #[trigger] v@.contains(h) <==> was.contains(h) || h == x by {
        if was.contains(h) {
            let k = choose|k: int| 0 <= k < was.len() && was[k] == h;
            if k < at {
                assert(v@[k] == h);
            } else {
                assert(v@[k + 1] == h);
            }
        }
        if h == x {
            assert(v@[at as int] == h);
        }
        if v@.contains(h) {
            let k = choose|k: int| 0 <= k < v@.len() && v@[k] == h;
            if k < at {
                assert(was[k] == h);
            } else if k > at {
                assert(was[k - 1] == h);
            }
        }
    }
}

} // verus!
