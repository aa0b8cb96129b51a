//! Search conditions: parsing `SIG=VAL` terms and matching recorded values.
//!
//! A clause is a comma-separated list of terms that must all hold. A term is
//! `SIG=VAL`, `SIG==VAL`, `SIG!=VAL` or `changed(SIG)`. A value may be decimal
//! (`5`), hexadecimal (`0xff`), binary (`b1010`, `0b1010`), four-state (`b1x0z`)
//! or a bare four-state literal (`1x0`). Numeric targets match by number;
//! four-state targets match as bit patterns extended to the signal's width.
//! `!=` does not match unknown or undefined values.

use vstd::prelude::*;

use crate::format::{fold_states, four_states, left_extend, left_extended, pyrepr, repr};
use crate::limbs::{canonical, canonical_is_unique, limb_value, mul_add};
use crate::text::{
    byte_len, bytes_in, chars_of, find_from, find_str, has_prefix, lowercase, pieces, same, split,
    starts_with, string_of, to_lower, trim, trimmed, views,
};

verus! {

#[derive(Debug)]
pub struct ConditionParseError(pub String);

#[derive(Debug)]
pub struct ValueParseError(pub String);

pub const MAX_SIGNAL_WIDTH: usize = 65536;

pub const MAX_VALUE_ARG_LEN: usize = 65538;

pub const MAX_DECIMAL_VALUE_DIGITS: usize = 100;

pub const MAX_HEX_VALUE_DIGITS: usize = 16384;

/// The comparison in a condition term.
#[derive(Debug, Clone, Copy, PartialEq, Eq, Structural)]
pub enum Op {
    Eq,
    EqEq,
    Ne,
}

/// How an operator is written.
pub open spec fn op_text(op: Op) -> Seq<char> {
    match op {
        Op::Eq => "="@,
        Op::EqEq => "=="@,
        Op::Ne => "!="@,
    }
}

impl Op {
    pub fn as_str(&self) -> (s: &'static str)
        ensures
            s@ == op_text(*self),
    {
        match self {
            Op::Eq => "=",
            Op::EqEq => "==",
            Op::Ne => "!=",
        }
    }
}

/// The value of a digit character, or sixteen for any other character.
pub open spec fn digit_value(c: char) -> nat {
    if '0' <= c && c <= '9' {
        (c as int - 48) as nat
    } else if 'a' <= c && c <= 'f' {
        (c as int - 87) as nat
    } else if 'A' <= c && c <= 'F' {
        (c as int - 55) as nat
    } else {
        16
    }
}

/// Is `s` a non-empty run of digits of this radix?
pub open spec fn is_number(s: Seq<char>, radix: nat) -> bool {
    s.len() > 0 && forall|i: int| 0 <= i < s.len() ==> digit_value(#[trigger] s[i]) < radix
}

/// The number that a run of digits stands for.
pub open spec fn number_value(s: Seq<char>, radix: nat) -> nat
    decreases s.len(),
{
    if s.len() == 0 {
        0
    } else {
        radix * number_value(s.drop_last(), radix) + digit_value(s.last())
    }
}

fn value_of_digit(c: char) -> (d: u32)
    ensures
        d == digit_value(c),
{
    if '0' <= c && c <= '9' {
        c as u32 - 48
    } else if 'a' <= c && c <= 'f' {
        c as u32 - 87
    } else if 'A' <= c && c <= 'F' {
        c as u32 - 55
    } else {
        16
    }
}

/// A natural number of any size, for comparing wide bus values.
#[derive(Debug)]
pub struct BigUint {
    limbs: Vec<u32>,
}

impl View for BigUint {
    type V = nat;

    closed spec fn view(&self) -> nat {
        limb_value(self.limbs@, 0x1_0000_0000)
    }
}

impl BigUint {
    #[verifier::type_invariant]
    spec fn canonical_limbs(self) -> bool {
        canonical(self.limbs@, 0x1_0000_0000)
    }

    fn from_radix(s: &str, radix: u32) -> (r: Option<BigUint>)
        requires
            2 <= radix <= 16,
        ensures
            match r {
                Some(n) => is_number(s@, radix as nat) && n@ == number_value(s@, radix as nat),
                None => !is_number(s@, radix as nat),
            },
    {
        let v: Vec<char> = chars_of(s);
        if v.len() == 0 {
            return None;
        }
        let mut limbs: Vec<u32> = Vec::new();
        let mut i: usize = 0;
        assert(v@.take(0) =~= Seq::empty());
        while i < v.len()
            invariant
                i <= v.len(),
                v@ == s@,
                2 <= radix <= 16,
                canonical(limbs@, 0x1_0000_0000),
                limb_value(limbs@, 0x1_0000_0000) == number_value(v@.take(i as int), radix as nat),
                forall|k: int| 0 <= k < i ==> digit_value(#[trigger] v@[k]) < radix,
            decreases v.len() - i,
        {
            let d: u32 = value_of_digit(v[i]);
            if d >= radix {
                assert(digit_value(s@[i as int]) >= radix);
                return None;
            }
            mul_add(&mut limbs, 0x1_0000_0000, radix, d);
            proof {
                assert(v@.take(i + 1).drop_last() =~= v@.take(i as int));
            }
            i += 1;
        }
        assert(v@.take(i as int) =~= s@);
        Some(BigUint { limbs })
    }

    /// Parse a decimal string.
    pub fn from_decimal(s: &str) -> (r: Option<BigUint>)
        ensures
            match r {
                Some(n) => is_number(s@, 10) && n@ == number_value(s@, 10),
                None => !is_number(s@, 10),
            },
    {
        BigUint::from_radix(s, 10)
    }

    /// Parse a hexadecimal string (without `0x`).
    pub fn from_hex(s: &str) -> (r: Option<BigUint>)
        ensures
            match r {
                Some(n) => is_number(s@, 16) && n@ == number_value(s@, 16),
                None => !is_number(s@, 16),
            },
    {
        BigUint::from_radix(s, 16)
    }

    /// Parse a string of `0` and `1`.
    pub fn from_binary(s: &str) -> (r: Option<BigUint>)
        ensures
            match r {
                Some(n) => is_number(s@, 2) && n@ == number_value(s@, 2),
                None => !is_number(s@, 2),
            },
    {
        BigUint::from_radix(s, 2)
    }
}

impl PartialEq for BigUint {
    fn eq(&self, other: &BigUint) -> (r: bool) {
        proof {
            use_type_invariant(self);
            use_type_invariant(other);
        }
        if self.limbs.len() != other.limbs.len() {
            proof {
                if self@ == other@ {
                    canonical_is_unique(self.limbs@, other.limbs@, 0x1_0000_0000);
                }
            }
            return false;
        }
        let mut i: usize = 0;
        while i < self.limbs.len()
            invariant
                i <= self.limbs.len() == other.limbs.len(),
                canonical(self.limbs@, 0x1_0000_0000),
                canonical(other.limbs@, 0x1_0000_0000),
                forall|k: int| 0 <= k < i ==> self.limbs@[k] == other.limbs@[k],
            decreases self.limbs.len() - i,
        {
            if self.limbs[i] != other.limbs[i] {
                proof {
                    if self@ == other@ {
                        canonical_is_unique(self.limbs@, other.limbs@, 0x1_0000_0000);
                    }
                }
                return false;
            }
            i += 1;
        }
        assert(self.limbs@ =~= other.limbs@);
        true
    }
}

impl vstd::std_specs::cmp::PartialEqSpecImpl for BigUint {
    open spec fn obeys_eq_spec() -> bool {
        true
    }

    open spec fn eq_spec(&self, other: &BigUint) -> bool {
        self@ == other@
    }
}

impl Eq for BigUint {

}

impl Clone for BigUint {
    fn clone(&self) -> (r: BigUint)
        ensures
            r@ == self@,
    {
        proof {
            use_type_invariant(self);
        }
        let limbs: Vec<u32> = self.limbs.clone();
        assert(limbs@ =~= self.limbs@);
        BigUint { limbs }
    }
}


/// A condition's value. A numeric target has its number in `int` and its whole
/// text, in lower case, in `raw`; without a number the target is the four-state
/// pattern `raw`, free of any `b` or `0b` before it.
#[derive(Debug)]
pub struct Target {
    pub raw: String,
    pub int: Option<BigUint>,
}

pub struct TargetView {
    pub raw: Seq<char>,
    pub int: Option<nat>,
}

impl View for Target {
    type V = TargetView;

    open spec fn view(&self) -> TargetView {
        TargetView {
            raw: self.raw@,
            int: match self.int {
                Some(n) => Some(n@),
                None => None,
            },
        }
    }
}

impl Clone for Target {
    fn clone(&self) -> (r: Target)
        ensures
            r@ == self@,
    {
        Target {
            raw: self.raw.clone(),
            int: match &self.int {
                Some(n) => Some(n.clone()),
                None => None,
            },
        }
    }
}

/// Is `c` one of the four states?
pub open spec fn is_state(c: char) -> bool {
    c == '0' || c == '1' || c == 'x' || c == 'z'
}

pub open spec fn all_states(s: Seq<char>) -> bool {
    forall|i: int| 0 <= i < s.len() ==> is_state(#[trigger] s[i])
}

fn only_states(s: &str) -> (r: bool)
    ensures
        r == all_states(s@),
{
    let v: Vec<char> = chars_of(s);
    let mut i: usize = 0;
    while i < v.len()
        invariant
            i <= v.len(),
            v@ == s@,
            forall|k: int| 0 <= k < i ==> is_state(#[trigger] v@[k]),
        decreases v.len() - i,
    {
        let c: char = v[i];
        if !(c == '0' || c == '1' || c == 'x' || c == 'z') {
            assert(!is_state(s@[i as int]));
            return false;
        }
        i += 1;
    }
    true
}

/// What the bits after `b` or `0b` mean: a number when they are all known, a
/// pattern when some are not. `raw` is the target in lower case, `text` the
/// target as written.
pub open spec fn binary_target(
    body: Seq<char>,
    raw: Seq<char>,
    text: Seq<char>,
) -> Result<TargetView, Seq<char>> {
    if body.len() == 0 {
        Err("binary target must contain at least one bit"@)
    } else if byte_len(body) > MAX_SIGNAL_WIDTH {
        Err("binary target too wide; max bits is 65536"@)
    } else if is_number(body, 2) {
        Ok(TargetView { raw, int: Some(number_value(body, 2)) })
    } else if all_states(body) {
        Ok(TargetView { raw: body, int: None })
    } else {
        Err("invalid binary target "@ + repr(text) + "; expected only 0/1/x/z"@)
    }
}

/// What the digits after `0x` mean.
pub open spec fn hex_target(raw: Seq<char>, text: Seq<char>) -> Result<TargetView, Seq<char>> {
    let body = raw.skip(2);
    if body.len() == 0 {
        Err("hex target must contain at least one digit"@)
    } else if byte_len(body) > MAX_HEX_VALUE_DIGITS {
        Err("hex target too wide; max hex digits is 16384"@)
    } else if is_number(body, 16) {
        Ok(TargetView { raw, int: Some(number_value(body, 16)) })
    } else {
        Err(
            "invalid hex target "@ + repr(text)
                + "; x/z literals must use binary form like b1x0z"@,
        )
    }
}

/// What a target value means, or why it means nothing.
pub open spec fn target_of(text: Seq<char>) -> Result<TargetView, Seq<char>> {
    let raw = lowercase(trimmed(text));
    if raw.len() == 0 {
        Err("target value must not be empty"@)
    } else if byte_len(raw) > MAX_VALUE_ARG_LEN {
        Err("target value too long; max length is 65538"@)
    } else if raw[0] == '-' {
        Err("negative target values are not supported for waveform matching"@)
    } else if raw.len() >= 2 && raw[0] == '0' && raw[1] == 'x' {
        hex_target(raw, text)
    } else if raw.len() >= 2 && raw[0] == '0' && raw[1] == 'b' {
        binary_target(raw.skip(2), raw, text)
    } else if raw[0] == 'b' {
        binary_target(raw.skip(1), raw, text)
    } else if raw[0] == '+' {
        Err("signed target values are not supported; write unsigned values"@)
    } else if is_number(raw, 10) {
        if byte_len(raw) > MAX_DECIMAL_VALUE_DIGITS {
            Err("decimal target too long; max digits is 100"@)
        } else {
            Ok(TargetView { raw, int: Some(number_value(raw, 10)) })
        }
    } else if byte_len(raw) > MAX_SIGNAL_WIDTH {
        Err("literal target too wide; max characters is MAX_SIGNAL_WIDTH"@)
    } else if all_states(raw) {
        Ok(TargetView { raw, int: None })
    } else {
        Err(
            "invalid target "@ + repr(text)
                + "; expected decimal, 0x.., b.., or 0/1/x/z literal"@,
        )
    }
}

/// Does an outcome of parsing a target say the same as its meaning?
pub open spec fn target_agrees(
    r: Result<Target, ValueParseError>,
    meaning: Result<TargetView, Seq<char>>,
) -> bool {
    match r {
        Ok(t) => meaning == Ok::<TargetView, Seq<char>>(t@),
        Err(e) => meaning == Err::<TargetView, Seq<char>>(e.0@),
    }
}

fn parse_binary_body(body: &str, raw: String, text: &str) -> (r: Result<Target, ValueParseError>)
    ensures
        target_agrees(r, binary_target(body@, raw@, text@)),
{
    if body.is_empty() {
        return Err(
            ValueParseError("binary target must contain at least one bit".to_owned()),
        );
    }
    if bytes_in(body) > MAX_SIGNAL_WIDTH {
        return Err(ValueParseError("binary target too wide; max bits is 65536".to_owned()));
    }
    let number: Option<BigUint> = BigUint::from_binary(body);
    if number.is_some() {
        return Ok(Target { raw, int: number });
    }
    if only_states(body) {
        return Ok(Target { raw: body.to_owned(), int: None });
    }
    let mut msg: String = "invalid binary target ".to_owned();
    msg.push_str(pyrepr(text).as_str());
    msg.push_str("; expected only 0/1/x/z");
    Err(ValueParseError(msg))
}

fn parse_hex_body(raw: String, body: &str, text: &str) -> (r: Result<Target, ValueParseError>)
    requires
        raw@.len() >= 2,
        body@ == raw@.skip(2),
    ensures
        target_agrees(r, hex_target(raw@, text@)),
{
    if body.is_empty() {
        return Err(
            ValueParseError("hex target must contain at least one digit".to_owned()),
        );
    }
    if bytes_in(body) > MAX_HEX_VALUE_DIGITS {
        return Err(
            ValueParseError("hex target too wide; max hex digits is 16384".to_owned()),
        );
    }
    let number: Option<BigUint> = BigUint::from_hex(body);
    if number.is_some() {
        return Ok(Target { raw, int: number });
    }
    let mut msg: String = "invalid hex target ".to_owned();
    msg.push_str(pyrepr(text).as_str());
    msg.push_str("; x/z literals must use binary form like b1x0z");
    Err(ValueParseError(msg))
}

/// Parse a target value.
pub fn parse_target_value(text: &str) -> (r: Result<Target, ValueParseError>)
    ensures
        target_agrees(r, target_of(text@)),
{
    let raw: String = to_lower(trim(text));
    let v: Vec<char> = chars_of(raw.as_str());
    let n: usize = v.len();
    if n == 0 {
        return Err(ValueParseError("target value must not be empty".to_owned()));
    }
    if bytes_in(raw.as_str()) > MAX_VALUE_ARG_LEN {
        return Err(
            ValueParseError("target value too long; max length is 65538".to_owned()),
        );
    }
    if v[0] == '-' {
        return Err(
            ValueParseError(
                "negative target values are not supported for waveform matching".to_owned(),
            ),
        );
    }
    if n >= 2 && v[0] == '0' && v[1] == 'x' {
        let body: String = string_of(&v, 2, n);
        assert(body@ =~= raw@.skip(2));
        return parse_hex_body(raw, body.as_str(), text);
    }
    if n >= 2 && v[0] == '0' && v[1] == 'b' {
        let body: String = string_of(&v, 2, n);
        assert(body@ =~= raw@.skip(2));
        return parse_binary_body(body.as_str(), raw, text);
    }
    if v[0] == 'b' {
        let body: String = string_of(&v, 1, n);
        assert(body@ =~= raw@.skip(1));
        return parse_binary_body(body.as_str(), raw, text);
    }
    if v[0] == '+' {
        return Err(
            ValueParseError(
                "signed target values are not supported; write unsigned values".to_owned(),
            ),
        );
    }
    let number: Option<BigUint> = BigUint::from_decimal(raw.as_str());
    if number.is_some() {
        if bytes_in(raw.as_str()) > MAX_DECIMAL_VALUE_DIGITS {
            return Err(
                ValueParseError("decimal target too long; max digits is 100".to_owned()),
            );
        }
        return Ok(Target { raw, int: number });
    }
    if bytes_in(raw.as_str()) > MAX_SIGNAL_WIDTH {
        return Err(
            ValueParseError(
                "literal target too wide; max characters is MAX_SIGNAL_WIDTH".to_owned(),
            ),
        );
    }
    if only_states(raw.as_str()) {
        return Ok(Target { raw, int: None });
    }
    let mut msg: String = "invalid target ".to_owned();
    msg.push_str(pyrepr(text).as_str());
    msg.push_str("; expected decimal, 0x.., b.., or 0/1/x/z literal");
    Err(ValueParseError(msg))
}

/// A comparison term before its signal is resolved.
#[derive(Debug)]
pub struct ParsedCondition {
    pub pattern: String,
    pub op: Op,
    pub target: Target,
    /// The term as written.
    pub original: String,
    /// The value as written.
    pub value_text: String,
}

pub struct ConditionView {
    pub pattern: Seq<char>,
    pub op: Op,
    pub target: TargetView,
    pub original: Seq<char>,
    pub value_text: Seq<char>,
}

impl View for ParsedCondition {
    type V = ConditionView;

    open spec fn view(&self) -> ConditionView {
        ConditionView {
            pattern: self.pattern@,
            op: self.op,
            target: self.target@,
            original: self.original@,
            value_text: self.value_text@,
        }
    }
}

/// `SIG op VAL` cut at its operator, both sides trimmed. `!=` is looked for
/// first, a lone `=` last.
pub open spec fn cut_at_operator(item: Seq<char>) -> Option<(Seq<char>, Op, Seq<char>)> {
    match find_from(item, "!="@, 0) {
        Some(p) => Some((trimmed(item.take(p)), Op::Ne, trimmed(item.skip(p + 2)))),
        None => match find_from(item, "=="@, 0) {
            Some(p) => Some((trimmed(item.take(p)), Op::EqEq, trimmed(item.skip(p + 2)))),
            None => match find_from(item, "="@, 0) {
                Some(p) => Some((trimmed(item.take(p)), Op::Eq, trimmed(item.skip(p + 1)))),
                None => None,
            },
        },
    }
}

fn sides(v: &Vec<char>, at: usize, skip: usize) -> (r: (String, String))
    requires
        at + skip <= v.len(),
    ensures
        r.0@ == trimmed(v@.take(at as int)),
        r.1@ == trimmed(v@.skip(at + skip)),
{
    let left: String = string_of(v, 0, at);
    let right: String = string_of(v, at + skip, v.len());
    assert(left@ =~= v@.take(at as int));
    assert(right@ =~= v@.skip(at + skip));
    (trim(left.as_str()).to_owned(), trim(right.as_str()).to_owned())
}

fn split_condition(item: &str) -> (r: Option<(String, Op, String)>)
    ensures
        match r {
            Some(t) => cut_at_operator(item@) == Some((t.0@, t.1, t.2@)),
            None => cut_at_operator(item@) is None,
        },
{
    proof {
        reveal_strlit("!=");
        reveal_strlit("==");
        reveal_strlit("=");
    }
    let v: Vec<char> = chars_of(item);
    let ne: Option<usize> = find_str(&v, "!=");
    if let Some(at) = ne {
        let (a, b) = sides(&v, at, 2);
        return Some((a, Op::Ne, b));
    }
    let eqeq: Option<usize> = find_str(&v, "==");
    if let Some(at) = eqeq {
        let (a, b) = sides(&v, at, 2);
        return Some((a, Op::EqEq, b));
    }
    let eq: Option<usize> = find_str(&v, "=");
    if let Some(at) = eq {
        let (a, b) = sides(&v, at, 1);
        return Some((a, Op::Eq, b));
    }
    None
}

/// What one comparison term (already trimmed) means.
pub open spec fn condition_of(item: Seq<char>) -> Result<ConditionView, Seq<char>> {
    match cut_at_operator(item) {
        None => Err(
            "invalid condition "@ + repr(item) + "; expected SIG=VAL, SIG==VAL, or SIG!=VAL"@,
        ),
        Some((sig, op, val)) => if sig.len() == 0 || val.len() == 0 {
            Err("invalid empty signal/value in condition "@ + repr(item))
        } else {
            match target_of(val) {
                Err(e) => Err(e),
                Ok(target) => Ok(
                    ConditionView { pattern: sig, op, target, original: item, value_text: val },
                ),
            }
        },
    }
}

fn parse_condition(item: &str) -> (r: Result<ParsedCondition, ConditionParseError>)
    ensures
        match r {
            Ok(c) => condition_of(item@) == Ok::<ConditionView, Seq<char>>(c@),
            Err(e) => condition_of(item@) == Err::<ConditionView, Seq<char>>(e.0@),
        },
{
    let cut: Option<(String, Op, String)> = split_condition(item);
    match cut {
        None => {
            let mut msg: String = "invalid condition ".to_owned();
            msg.push_str(pyrepr(item).as_str());
            msg.push_str("; expected SIG=VAL, SIG==VAL, or SIG!=VAL");
            Err(ConditionParseError(msg))
        },
        Some((sig, op, val)) => {
            if sig.as_str().is_empty() || val.as_str().is_empty() {
                let mut msg: String = "invalid empty signal/value in condition ".to_owned();
                msg.push_str(pyrepr(item).as_str());
                return Err(ConditionParseError(msg));
            }
            let parsed: Result<Target, ValueParseError> = parse_target_value(val.as_str());
            match parsed {
                Err(e) => Err(ConditionParseError(e.0)),
                Ok(target) => Ok(
                    ParsedCondition {
                        pattern: sig,
                        op,
                        target,
                        original: item.to_owned(),
                        value_text: val,
                    },
                ),
            }
        },
    }
}

/// The non-blank items of a comma-separated list, trimmed.
pub open spec fn list_items(parts: Seq<Seq<char>>) -> Seq<Seq<char>>
    decreases parts.len(),
{
    if parts.len() == 0 {
        Seq::empty()
    } else {
        let rest = list_items(parts.drop_last());
        let item = trimmed(parts.last());
        if item.len() == 0 {
            rest
        } else {
            rest.push(item)
        }
    }
}

/// The non-blank items of a comma-separated string, trimmed.
pub open spec fn csv_items(text: Seq<char>) -> Seq<Seq<char>> {
    list_items(pieces(text, ','))
}

/// Split a comma-separated string into its non-blank items, trimmed.
pub fn split_items(text: &str) -> (r: Vec<String>)
    ensures
        views(r@) == csv_items(text@),
        r.len() == csv_items(text@).len(),
{
    let parts: Vec<String> = split(text, ',');
    let mut out: Vec<String> = Vec::new();
    let mut i: usize = 0;
    assert(views(parts@).take(0) =~= Seq::empty());
    assert(views(out@) =~= Seq::empty());
    while i < parts.len()
        invariant
            i <= parts.len(),
            views(out@) == list_items(views(parts@).take(i as int)),
        decreases parts.len() - i,
    {
        let item: &str = trim(parts[i].as_str());
        proof {
            let w = views(parts@).take(i + 1);
            assert(w.drop_last() =~= views(parts@).take(i as int));
            assert(w.last() == parts@[i as int]@);
        }
        if !item.is_empty() {
            let ghost before = out@;
            let owned: String = item.to_owned();
            out.push(owned);
            assert(views(out@) =~= views(before).push(owned@));
        }
        i += 1;
    }
    assert(views(parts@).take(i as int) =~= views(parts@));
    assert(views(out@).len() == out@.len());
    out
}

/// What a list of comparison terms means: every term's meaning in order, or
/// the first complaint.
pub open spec fn conditions_of(items: Seq<Seq<char>>) -> Result<Seq<ConditionView>, Seq<char>>
    decreases items.len(),
{
    if items.len() == 0 {
        Ok(Seq::empty())
    } else {
        match conditions_of(items.drop_last()) {
            Err(e) => Err(e),
            Ok(done) => match condition_of(items.last()) {
                Err(e) => Err(e),
                Ok(c) => Ok(done.push(c)),
            },
        }
    }
}

/// What a comma-separated list of comparison terms means.
pub open spec fn condition_list_of(text: Seq<char>) -> Result<Seq<ConditionView>, Seq<char>> {
    if trimmed(text).len() == 0 {
        Err("search requires --condition"@)
    } else {
        match conditions_of(csv_items(text)) {
            Err(e) => Err(e),
            Ok(all) => if all.len() == 0 {
                Err("search requires at least one condition"@)
            } else {
                Ok(all)
            },
        }
    }
}

pub open spec fn condition_views(v: Seq<ParsedCondition>) -> Seq<ConditionView> {
    v.map_values(|c: ParsedCondition| c@)
}

proof fn lemma_conditions_fail(items: Seq<Seq<char>>, n: int, e: Seq<char>)
    requires
        0 <= n <= items.len(),
        conditions_of(items.take(n)) == Err::<Seq<ConditionView>, Seq<char>>(e),
    ensures
        conditions_of(items) == Err::<Seq<ConditionView>, Seq<char>>(e),
    decreases items.len() - n,
{
    if n < items.len() {
        assert(items.take(n + 1).drop_last() =~= items.take(n));
        lemma_conditions_fail(items, n + 1, e);
    } else {
        assert(items.take(n) =~= items);
    }
}

/// Parse a comma-separated list of comparison terms.
pub fn parse_conditions(text: &str) -> (r: Result<Vec<ParsedCondition>, ConditionParseError>)
    ensures
        match r {
            Ok(v) => condition_list_of(text@) == Ok::<Seq<ConditionView>, Seq<char>>(
                condition_views(v@),
            ),
            Err(e) => condition_list_of(text@) == Err::<Seq<ConditionView>, Seq<char>>(e.0@),
        },
{
    if trim(text).is_empty() {
        return Err(ConditionParseError("search requires --condition".to_owned()));
    }
    let items: Vec<String> = split_items(text);
    let ghost all = csv_items(text@);
    let mut out: Vec<ParsedCondition> = Vec::new();
    let mut i: usize = 0;
    assert(all.take(0) =~= Seq::empty());
    assert(condition_views(out@) =~= Seq::empty());
    while i < items.len()
        invariant
            i <= items.len() == all.len(),
            views(items@) == all,
            all == csv_items(text@),
            trimmed(text@).len() > 0,
            conditions_of(all.take(i as int)) == Ok::<Seq<ConditionView>, Seq<char>>(
                condition_views(out@),
            ),
        decreases items.len() - i,
    {
        let parsed: Result<ParsedCondition, ConditionParseError> = parse_condition(
            items[i].as_str(),
        );
        proof {
            assert(all.take(i + 1).drop_last() =~= all.take(i as int));
            assert(all.take(i + 1).last() == views(items@)[i as int]);
        }
        match parsed {
            Err(e) => {
                proof {
                    lemma_conditions_fail(all, i + 1, e.0@);
                }
                return Err(e);
            },
            Ok(c) => {
                let ghost before = out@;
                out.push(c);
                assert(condition_views(out@) =~= condition_views(before).push(c@));
            },
        }
        i += 1;
    }
    assert(all.take(i as int) =~= all);
    if out.len() == 0 {
        return Err(ConditionParseError("search requires at least one condition".to_owned()));
    }
    Ok(out)
}


/// A term of a search clause.
#[derive(Debug)]
pub enum Term {
    /// `SIG op VAL`: compares the signal's current value.
    Level(ParsedCondition),
    /// `changed(SIG)`: the signal changes at the tick looked at.
    Changed { pattern: String, original: String },
}

pub enum TermView {
    Level(ConditionView),
    Changed { pattern: Seq<char>, original: Seq<char> },
}

impl View for Term {
    type V = TermView;

    open spec fn view(&self) -> TermView {
        match self {
            Term::Level(c) => TermView::Level(c@),
            Term::Changed { pattern, original } => TermView::Changed {
                pattern: pattern@,
                original: original@,
            },
        }
    }
}

/// Is the item written `changed(...)`?
pub open spec fn is_changed_term(item: Seq<char>) -> bool {
    has_prefix(item, "changed("@) && item.last() == ')'
}

/// What one term (already trimmed) means.
pub open spec fn term_of(item: Seq<char>) -> Result<TermView, Seq<char>> {
    if is_changed_term(item) {
        let sig = trimmed(item.subrange(8, item.len() - 1));
        if sig.len() == 0 {
            Err("invalid empty signal/value in condition "@ + repr(item))
        } else {
            Ok(TermView::Changed { pattern: sig, original: item })
        }
    } else {
        match condition_of(item) {
            Ok(c) => Ok(TermView::Level(c)),
            Err(e) => Err(e),
        }
    }
}

fn parse_term(item: &str) -> (r: Result<Term, ConditionParseError>)
    ensures
        match r {
            Ok(t) => term_of(item@) == Ok::<TermView, Seq<char>>(t@),
            Err(e) => term_of(item@) == Err::<TermView, Seq<char>>(e.0@),
        },
{
    proof {
        reveal_strlit("changed(");
    }
    if starts_with(item, "changed(") {
        let v: Vec<char> = chars_of(item);
        let n: usize = v.len();
        assert(n >= 8);
        if v[n - 1] == ')' {
            proof {
                if n == 8 {
                    assert(item@.subrange(0, 8)[7] == "changed("@[7]);
                }
            }
            let inner: String = string_of(&v, 8, n - 1);
            let sig: &str = trim(inner.as_str());
            if sig.is_empty() {
                let mut msg: String = "invalid empty signal/value in condition ".to_owned();
                msg.push_str(pyrepr(item).as_str());
                return Err(ConditionParseError(msg));
            }
            return Ok(Term::Changed { pattern: sig.to_owned(), original: item.to_owned() });
        }
    }
    let parsed: Result<ParsedCondition, ConditionParseError> = parse_condition(item);
    match parsed {
        Ok(c) => Ok(Term::Level(c)),
        Err(e) => Err(e),
    }
}

/// What a list of terms means: every term's meaning in order, or the first
/// complaint.
pub open spec fn terms_of(items: Seq<Seq<char>>) -> Result<Seq<TermView>, Seq<char>>
    decreases items.len(),
{
    if items.len() == 0 {
        Ok(Seq::empty())
    } else {
        match terms_of(items.drop_last()) {
            Err(e) => Err(e),
            Ok(done) => match term_of(items.last()) {
                Err(e) => Err(e),
                Ok(c) => Ok(done.push(c)),
            },
        }
    }
}

/// What a clause means.
pub open spec fn clause_of(text: Seq<char>) -> Result<Seq<TermView>, Seq<char>> {
    if trimmed(text).len() == 0 {
        Err("search requires --condition"@)
    } else {
        match terms_of(csv_items(text)) {
            Err(e) => Err(e),
            Ok(all) => if all.len() == 0 {
                Err("search requires at least one condition"@)
            } else {
                Ok(all)
            },
        }
    }
}

pub open spec fn term_views(v: Seq<Term>) -> Seq<TermView> {
    v.map_values(|c: Term| c@)
}

proof fn lemma_terms_fail(items: Seq<Seq<char>>, n: int, e: Seq<char>)
    requires
        0 <= n <= items.len(),
        terms_of(items.take(n)) == Err::<Seq<TermView>, Seq<char>>(e),
    ensures
        terms_of(items) == Err::<Seq<TermView>, Seq<char>>(e),
    decreases items.len() - n,
{
    if n < items.len() {
        assert(items.take(n + 1).drop_last() =~= items.take(n));
        lemma_terms_fail(items, n + 1, e);
    } else {
        assert(items.take(n) =~= items);
    }
}

/// Parse one clause: a comma-separated list of terms.
pub fn parse_clause(text: &str) -> (r: Result<Vec<Term>, ConditionParseError>)
    ensures
        match r {
            Ok(v) => clause_of(text@) == Ok::<Seq<TermView>, Seq<char>>(term_views(v@)),
            Err(e) => clause_of(text@) == Err::<Seq<TermView>, Seq<char>>(e.0@),
        },
{
    if trim(text).is_empty() {
        return Err(ConditionParseError("search requires --condition".to_owned()));
    }
    let items: Vec<String> = split_items(text);
    let ghost all = csv_items(text@);
    let mut out: Vec<Term> = Vec::new();
    let mut i: usize = 0;
    assert(all.take(0) =~= Seq::empty());
    assert(term_views(out@) =~= Seq::empty());
    while i < items.len()
        invariant
            i <= items.len() == all.len(),
            views(items@) == all,
            all == csv_items(text@),
            trimmed(text@).len() > 0,
            terms_of(all.take(i as int)) == Ok::<Seq<TermView>, Seq<char>>(term_views(out@)),
        decreases items.len() - i,
    {
        let parsed: Result<Term, ConditionParseError> = parse_term(items[i].as_str());
        proof {
            assert(all.take(i + 1).drop_last() =~= all.take(i as int));
            assert(all.take(i + 1).last() == views(items@)[i as int]);
        }
        match parsed {
            Err(e) => {
                proof {
                    lemma_terms_fail(all, i + 1, e.0@);
                }
                return Err(e);
            },
            Ok(c) => {
                let ghost before = out@;
                out.push(c);
                assert(term_views(out@) =~= term_views(before).push(c@));
            },
        }
        i += 1;
    }
    assert(all.take(i as int) =~= all);
    if out.len() == 0 {
        return Err(ConditionParseError("search requires at least one condition".to_owned()));
    }
    Ok(out)
}

/// A clause without `changed()` terms means what the same list of comparison
/// terms means.
pub proof fn level_clause_is_condition_list(text: Seq<char>)
    requires
        forall|i: int|
            0 <= i < csv_items(text).len() ==> !is_changed_term(#[trigger] csv_items(text)[i]),
    ensures
        clause_of(text) == match condition_list_of(text) {
            Ok(all) => Ok(all.map_values(|c: ConditionView| TermView::Level(c))),
            Err(e) => Err(e),
        },
{
    lemma_level_terms(csv_items(text));
}

proof fn lemma_level_terms(items: Seq<Seq<char>>)
    requires
        forall|i: int| 0 <= i < items.len() ==> !is_changed_term(#[trigger] items[i]),
    ensures
        terms_of(items) == match conditions_of(items) {
            Ok(all) => Ok(all.map_values(|c: ConditionView| TermView::Level(c))),
            Err(e) => Err(e),
        },
    decreases items.len(),
{
    let f = |c: ConditionView| TermView::Level(c);
    if items.len() == 0 {
        assert(Seq::<ConditionView>::empty().map_values(f) =~= Seq::empty());
    } else {
        let less = items.drop_last();
        assert forall|i: int| 0 <= i < less.len() implies !is_changed_term(#[trigger] less[i]) by {
            assert(!is_changed_term(items[i]));
        }
        lemma_level_terms(less);
        assert(!is_changed_term(items[items.len() - 1]));
        match conditions_of(less) {
            Ok(done) => match condition_of(items.last()) {
                Ok(c) => {
                    assert(done.push(c).map_values(f) =~= done.map_values(f).push(f(c)));
                },
                Err(_) => {},
            },
            Err(_) => {},
        }
    }
}

/// Is every bit `0` or `1` (or their weak forms), with at least one bit?
pub open spec fn is_known(bits: Seq<char>) -> bool {
    bits.len() > 0 && forall|i: int|
        0 <= i < bits.len() ==> is_known_bit(#[trigger] bits[i])
}

pub open spec fn is_known_bit(c: char) -> bool {
    c == '0' || c == '1' || c == 'h' || c == 'l' || c == 'H' || c == 'L'
}

/// Does a recorded value match a target? `bits` is the value's bit string when
/// it is a logic value; `raw` is its text; `width` is the signal's width.
pub open spec fn value_match(
    bits: Option<Seq<char>>,
    raw: Seq<char>,
    target: TargetView,
    width: nat,
) -> bool {
    match target.int {
        Some(n) => match bits {
            Some(b) => is_known(b) && number_value(four_states(b), 2) == n,
            None => false,
        },
        None => match bits {
            Some(b) => target.raw.len() <= width && left_extended(four_states(b), width)
                == left_extended(target.raw, width),
            None => raw == target.raw,
        },
    }
}

/// Is there a bit other than `0` and `1`, or no logic value at all?
pub open spec fn is_unsettled(bits: Option<Seq<char>>) -> bool {
    match bits {
        None => true,
        Some(b) => !all_plain(b),
    }
}

/// Is every bit `0` or `1`?
pub open spec fn all_plain(b: Seq<char>) -> bool {
    forall|i: int| 0 <= i < b.len() ==> is_plain_bit(#[trigger] b[i])
}

pub open spec fn is_plain_bit(c: char) -> bool {
    c == '0' || c == '1'
}

/// Does a recorded value satisfy a term? An undefined value (`raw` is `None`)
/// satisfies nothing, and an unsettled one never satisfies `!=`.
pub open spec fn term_match(
    bits: Option<Seq<char>>,
    raw: Option<Seq<char>>,
    op: Op,
    target: TargetView,
    width: nat,
) -> bool {
    match raw {
        None => false,
        Some(r) => match op {
            Op::Ne => !is_unsettled(bits) && !value_match(bits, r, target, width),
            _ => value_match(bits, r, target, width),
        },
    }
}

pub open spec fn str_view(s: Option<&str>) -> Option<Seq<char>> {
    match s {
        Some(v) => Some(v@),
        None => None,
    }
}

fn known_bits(v: &Vec<char>) -> (r: bool)
    ensures
        r == is_known(v@),
{
    if v.len() == 0 {
        return false;
    }
    let mut i: usize = 0;
    while i < v.len()
        invariant
            i <= v.len(),
            forall|k: int| 0 <= k < i ==> is_known_bit(#[trigger] v@[k]),
        decreases v.len() - i,
    {
        let c: char = v[i];
        if !(c == '0' || c == '1' || c == 'h' || c == 'l' || c == 'H' || c == 'L') {
            assert(!is_known_bit(v@[i as int]));
            return false;
        }
        i += 1;
    }
    true
}

proof fn lemma_known_folds(b: Seq<char>)
    requires
        is_known(b),
    ensures
        is_number(four_states(b), 2),
{
    let f = four_states(b);
    assert forall|i: int| 0 <= i < f.len() implies digit_value(#[trigger] f[i]) < 2 by {
        assert(is_known_bit(b[i]));
    }
}

fn same_chars(a: &Vec<char>, b: &Vec<char>) -> (r: bool)
    ensures
        r == (a@ == b@),
{
    if a.len() != b.len() {
        return false;
    }
    let mut i: usize = 0;
    while i < a.len()
        invariant
            i <= a.len() == b.len(),
            forall|k: int| 0 <= k < i ==> a@[k] == b@[k],
        decreases a.len() - i,
    {
        if a[i] != b[i] {
            return false;
        }
        i += 1;
    }
    assert(a@ =~= b@);
    true
}

/// Does a recorded value match a target?
///
/// `value_bits` is the bit string of a logic value, or `None` for a real or a
/// string. `width` is the signal's width.
pub fn value_matches(
    value_bits: Option<&str>,
    raw_value: &str,
    target: &Target,
    width: u32,
) -> (r: bool)
    ensures
        r == value_match(str_view(value_bits), raw_value@, target@, width as nat),
{
    match &target.int {
        Some(n) => match value_bits {
            Some(bits) => {
                let v: Vec<char> = chars_of(bits);
                if !known_bits(&v) {
                    return false;
                }
                let folded: Vec<char> = fold_states(bits);
                let text: String = string_of(&folded, 0, folded.len());
                proof {
                    assert(text@ =~= four_states(bits@));
                    lemma_known_folds(bits@);
                }
                let number: Option<BigUint> = BigUint::from_binary(text.as_str());
                match number {
                    Some(m) => m == *n,
                    None => false,
                }
            },
            None => false,
        },
        None => match value_bits {
            Some(bits) => {
                let t: Vec<char> = chars_of(target.raw.as_str());
                if t.len() > width as usize {
                    return false;
                }
                let folded: Vec<char> = fold_states(bits);
                let a: Vec<char> = left_extend(&folded, width as usize);
                let b: Vec<char> = left_extend(&t, width as usize);
                same_chars(&a, &b)
            },
            None => same(raw_value, target.raw.as_str()),
        },
    }
}

fn plain_bits(s: &str) -> (r: bool)
    ensures
        r == all_plain(s@),
{
    let v: Vec<char> = chars_of(s);
    let mut i: usize = 0;
    while i < v.len()
        invariant
            i <= v.len(),
            v@ == s@,
            forall|k: int| 0 <= k < i ==> is_plain_bit(#[trigger] v@[k]),
        decreases v.len() - i,
    {
        if v[i] != '0' && v[i] != '1' {
            assert(!is_plain_bit(s@[i as int]));
            return false;
        }
        i += 1;
    }
    true
}

fn unsettled(value_bits: Option<&str>) -> (r: bool)
    ensures
        r == is_unsettled(str_view(value_bits)),
{
    match value_bits {
        None => true,
        Some(b) => !plain_bits(b),
    }
}

/// Evaluate one comparison against a recorded value.
pub fn condition_match(
    value_bits: Option<&str>,
    raw_value: Option<&str>,
    op: Op,
    target: &Target,
    width: u32,
) -> (r: bool)
    ensures
        r == term_match(str_view(value_bits), str_view(raw_value), op, target@, width as nat),
{
    match raw_value {
        None => false,
        Some(raw) => match op {
            Op::Eq => value_matches(value_bits, raw, target, width),
            Op::EqEq => value_matches(value_bits, raw, target, width),
            Op::Ne => {
                if unsettled(value_bits) {
                    return false;
                }
                !value_matches(value_bits, raw, target, width)
            },
        },
    }
}

/// No value satisfies both a comparison and its negation, and an unsettled
/// value never satisfies `!=`.
pub proof fn ne_excludes_eq(
    bits: Option<Seq<char>>,
    raw: Option<Seq<char>>,
    target: TargetView,
    width: nat,
)
    ensures
        !(term_match(bits, raw, Op::Eq, target, width) && term_match(
            bits,
            raw,
            Op::Ne,
            target,
            width,
        )),
        term_match(bits, raw, Op::Eq, target, width) == term_match(
            bits,
            raw,
            Op::EqEq,
            target,
            width,
        ),
        is_unsettled(bits) ==> !term_match(bits, raw, Op::Ne, target, width),
{
}

} // verus!
