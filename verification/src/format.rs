//! Values and quoted names as text.

use vstd::prelude::*;

use crate::limbs::{canonical, limb_value, limbs_spell_digits, mul_add};
use crate::number::{dec, digit_char, digit_of, digits};
use crate::text::{ascii_lower, chars_of, contains_char, has_char, repeat, repeated, string_of};

verus! {

/// One character of a quoted name: backslash, the usual control escapes and
/// the quote itself take a backslash; other control characters become `\xNN`.
pub open spec fn repr_char(c: char, quote: char) -> Seq<char> {
    if c == '\\' {
        seq!['\\', '\\']
    } else if c == '\n' {
        seq!['\\', 'n']
    } else if c == '\r' {
        seq!['\\', 'r']
    } else if c == '\t' {
        seq!['\\', 't']
    } else if c == quote {
        seq!['\\', c]
    } else if (c as int) < 0x20 || c as int == 0x7f {
        seq!['\\', 'x', digit_char((c as nat) / 16), digit_char((c as nat) % 16)]
    } else {
        seq![c]
    }
}

/// The characters of a quoted name one after another.
pub open spec fn repr_body(s: Seq<char>, quote: char) -> Seq<char>
    decreases s.len(),
{
    if s.len() == 0 {
        Seq::empty()
    } else {
        repr_body(s.drop_last(), quote) + repr_char(s.last(), quote)
    }
}

/// Single quotes, unless the name holds a single quote and no double quote.
pub open spec fn repr_quote(s: Seq<char>) -> char {
    if has_char(s, '\'') && !has_char(s, '"') {
        '"'
    } else {
        '\''
    }
}

/// A name in quotes.
pub open spec fn repr(s: Seq<char>) -> Seq<char> {
    seq![repr_quote(s)] + repr_body(s, repr_quote(s)) + seq![repr_quote(s)]
}

fn push_repr_char(c: char, quote: char, out: &mut String)
    ensures
        final(out)@ == old(out)@ + repr_char(c, quote),
{
    if c == '\\' {
        out.push('\\');
        out.push('\\');
    } else if c == '\n' {
        out.push('\\');
        out.push('n');
    } else if c == '\r' {
        out.push('\\');
        out.push('r');
    } else if c == '\t' {
        out.push('\\');
        out.push('t');
    } else if c == quote {
        out.push('\\');
        out.push(c);
    } else if (c as u32) < 0x20 || c as u32 == 0x7f {
        let n: u8 = c as u8;
        out.push('\\');
        out.push('x');
        out.push(digit_of(n / 16));
        out.push(digit_of(n % 16));
    } else {
        out.push(c);
    }
    assert(out@ =~= old(out)@ + repr_char(c, quote));
}

/// Quote a name for an error message: single quotes by default, double quotes
/// when the name contains a single quote but no double quote; backslashes and
/// ASCII control characters are escaped.
pub fn pyrepr(s: &str) -> (r: String)
    ensures
        r@ == repr(s@),
{
    let single: bool = contains_char(s, '\'');
    let double: bool = contains_char(s, '"');
    let quote: char = if single && !double {
        '"'
    } else {
        '\''
    };
    let v: Vec<char> = chars_of(s);
    let mut out: String = String::new();
    out.push(quote);
    let mut i: usize = 0;
    assert(v@.take(0) =~= Seq::empty());
    assert(out@ =~= seq![quote] + repr_body(v@.take(0), quote));
    while i < v.len()
        invariant
            i <= v.len(),
            out@ == seq![quote] + repr_body(v@.take(i as int), quote),
        decreases v.len() - i,
    {
        push_repr_char(v[i], quote, &mut out);
        proof {
            assert(v@.take(i + 1).drop_last() =~= v@.take(i as int));
            assert(v@.take(i + 1).last() == v@[i as int]);
            assert(out@ =~= seq![quote] + repr_body(v@.take(i + 1), quote));
        }
        i += 1;
    }
    assert(v@.take(i as int) =~= s@);
    out.push(quote);
    assert(out@ =~= repr(s@));
    out
}

/// How the values of a signal are written.
#[derive(Debug, Clone, Copy, PartialEq, Eq, Structural)]
pub enum ValueKind {
    /// A fixed-width logic vector.
    Bits,
    /// A real number, written as it is.
    Real,
    /// A string, written as it is.
    Str,
    /// An event, always written `triggered`.
    Event,
}

/// One logic character folded to the four states `0`, `1`, `x` and `z`:
/// `h` reads as `1`, `l` as `0`, everything else as `x`.
pub open spec fn four_state(c: char) -> char {
    let l = ascii_lower(c);
    if l == '0' || l == 'l' {
        '0'
    } else if l == '1' || l == 'h' {
        '1'
    } else if l == 'z' {
        'z'
    } else {
        'x'
    }
}

/// A logic string folded to the four states.
pub open spec fn four_states(s: Seq<char>) -> Seq<char> {
    s.map_values(|c: char| four_state(c))
}

pub fn fold_state(c: char) -> (r: char)
    ensures
        r == four_state(c),
{
    match c {
        '0' | 'l' | 'L' => '0',
        '1' | 'h' | 'H' => '1',
        'z' | 'Z' => 'z',
        _ => 'x',
    }
}

/// Fold a logic string to the four states.
pub fn fold_states(s: &str) -> (v: Vec<char>)
    ensures
        v@ == four_states(s@),
{
    let src: Vec<char> = chars_of(s);
    let mut out: Vec<char> = Vec::new();
    let mut i: usize = 0;
    while i < src.len()
        invariant
            i <= src.len(),
            src@ == s@,
            out@ == four_states(s@).take(i as int),
        decreases src.len() - i,
    {
        out.push(fold_state(src[i]));
        i += 1;
        assert(out@ =~= four_states(s@).take(i as int));
    }
    assert(out@ =~= four_states(s@));
    out
}

/// The character that a short vector is extended with on the left: its leading
/// `x` or `z`, and `0` otherwise.
pub open spec fn extension_of(bits: Seq<char>) -> char {
    if bits.len() > 0 && (bits[0] == 'x' || bits[0] == 'z') {
        bits[0]
    } else {
        '0'
    }
}

/// `bits` extended on the left to at least `width` characters.
pub open spec fn left_extended(bits: Seq<char>, width: nat) -> Seq<char> {
    if bits.len() >= width {
        bits
    } else {
        repeated(extension_of(bits), (width - bits.len()) as nat) + bits
    }
}

/// Extend a four-state string on the left.
pub fn left_extend(bits: &Vec<char>, width: usize) -> (r: Vec<char>)
    ensures
        r@ == left_extended(bits@, width as nat),
{
    let mut out: Vec<char> = Vec::new();
    let len: usize = bits.len();
    if len < width {
        let pad: char = if len > 0 && (bits[0] == 'x' || bits[0] == 'z') {
            bits[0]
        } else {
            '0'
        };
        let mut k: usize = 0;
        while k < width - len
            invariant
                len < width,
                k <= width - len,
                out@ == repeated(pad, k as nat),
            decreases width - len - k,
        {
            out.push(pad);
            k += 1;
            assert(out@ =~= repeated(pad, k as nat));
        }
    }
    let ghost head = out@;
    let mut i: usize = 0;
    while i < len
        invariant
            i <= len == bits.len(),
            out@ == head + bits@.take(i as int),
        decreases len - i,
    {
        out.push(bits[i]);
        i += 1;
        assert(out@ =~= head + bits@.take(i as int));
    }
    assert(out@ =~= left_extended(bits@, width as nat));
    out
}

/// The declared width, at least one.
pub open spec fn shown_width(width: u32) -> nat {
    if width == 0 {
        1
    } else {
        width as nat
    }
}

/// The four-state bits shown for a recorded logic value: a value with more
/// bits than the declared width shows as unknowns.
pub open spec fn shown_bits(raw: Seq<char>, width: u32) -> Seq<char> {
    if raw.len() > shown_width(width) {
        repeated('x', shown_width(width))
    } else {
        four_states(raw)
    }
}

/// Is there an `x` or a `z` among the bits?
pub open spec fn has_unknown_bit(bits: Seq<char>) -> bool {
    has_char(bits, 'x') || has_char(bits, 'z')
}

/// The number that a string of `0` and `1` stands for, highest bit first.
pub open spec fn bits_value(bits: Seq<char>) -> nat
    decreases bits.len(),
{
    if bits.len() == 0 {
        0
    } else {
        2 * bits_value(bits.drop_last()) + (if bits.last() == '1' {
            1nat
        } else {
            0nat
        })
    }
}

/// A number in hexadecimal with at least `width` digits.
pub open spec fn padded_hex(n: nat, width: nat) -> Seq<char> {
    let core = digits(n, 16);
    if core.len() >= width {
        core
    } else {
        repeated('0', (width - core.len()) as nat) + core
    }
}

/// A logic value in text: a single bit as it is; a vector with unknown bits as
/// `b` and its bits; a known vector as its decimal number and, in brackets, its
/// hexadecimal number padded to the width.
pub open spec fn bits_text(raw: Seq<char>, width: u32) -> Seq<char> {
    let w = shown_width(width);
    let bits = shown_bits(raw, width);
    let full = left_extended(bits, w);
    if w == 1 {
        bits
    } else if has_unknown_bit(full) {
        seq!['b'] + full
    } else {
        dec(bits_value(full)) + seq![' ', '(', '0', 'x'] + padded_hex(
            bits_value(full),
            (w + 3) / 4,
        ) + seq![')']
    }
}

/// A recorded value in text.
pub open spec fn value_text(raw: Seq<char>, kind: ValueKind, width: u32) -> Seq<char> {
    match kind {
        ValueKind::Event => "triggered"@,
        ValueKind::Real => raw,
        ValueKind::Str => raw,
        ValueKind::Bits => bits_text(raw, width),
    }
}

/// A logic value in structured output: a known bit as it is, a known vector
/// as `0x` and its hexadecimal number without leading zeros, and anything with
/// unknown bits as `b` and its bits at full width.
pub open spec fn bits_compact(raw: Seq<char>, width: u32) -> Seq<char> {
    let w = shown_width(width);
    let full = left_extended(shown_bits(raw, width), w);
    if has_unknown_bit(full) {
        seq!['b'] + full
    } else if w == 1 {
        full
    } else {
        seq!['0', 'x'] + digits(bits_value(full), 16)
    }
}

/// A recorded value in structured output.
pub open spec fn value_compact(raw: Seq<char>, kind: ValueKind, width: u32) -> Seq<char> {
    match kind {
        ValueKind::Event => "triggered"@,
        ValueKind::Real => raw,
        ValueKind::Str => raw,
        ValueKind::Bits => bits_compact(raw, width),
    }
}

/// The limbs of a bit string in the given base.
pub fn bits_limbs(bits: &Vec<char>, base: u64) -> (d: Vec<u32>)
    requires
        2 <= base <= 0x1_0000_0000,
    ensures
        canonical(d@, base as nat),
        limb_value(d@, base as nat) == bits_value(bits@),
{
    let mut d: Vec<u32> = Vec::new();
    let mut i: usize = 0;
    assert(bits@.take(0) =~= Seq::empty());
    while i < bits.len()
        invariant
            i <= bits.len(),
            2 <= base <= 0x1_0000_0000,
            canonical(d@, base as nat),
            limb_value(d@, base as nat) == bits_value(bits@.take(i as int)),
        decreases bits.len() - i,
    {
        let bit: u32 = if bits[i] == '1' {
            1
        } else {
            0
        };
        mul_add(&mut d, base, 2, bit);
        proof {
            assert(bits@.take(i + 1).drop_last() =~= bits@.take(i as int));
        }
        i += 1;
    }
    assert(bits@.take(i as int) =~= bits@);
    d
}

/// The text of canonical limbs.
fn limbs_text(d: &Vec<u32>, base: u64) -> (v: Vec<char>)
    requires
        2 <= base <= 16,
        canonical(d@, base as nat),
    ensures
        v@ == digits(limb_value(d@, base as nat), base as nat),
{
    let mut out: Vec<char> = Vec::new();
    if d.len() == 0 {
        out.push('0');
        assert(out@ =~= digits(0, base as nat));
        return out;
    }
    proof {
        limbs_spell_digits(d@, base as nat);
    }
    let ghost all = Seq::new(d@.len(), |i: int| digit_char(d@[d@.len() - 1 - i] as nat));
    let mut i: usize = d.len();
    while i > 0
        invariant
            i <= d.len(),
            2 <= base <= 16,
            canonical(d@, base as nat),
            all == Seq::new(d@.len(), |i: int| digit_char(d@[d@.len() - 1 - i] as nat)),
            out@ == all.take(d.len() - i),
        decreases i,
    {
        i -= 1;
        assert(d@[i as int] < base);
        out.push(digit_of(d[i] as u8));
        assert(out@ =~= all.take(d.len() - i));
    }
    assert(out@ =~= all);
    out
}

pub fn holds_unknown(bits: &Vec<char>) -> (r: bool)
    ensures
        r == has_unknown_bit(bits@),
{
    let mut i: usize = 0;
    while i < bits.len()
        invariant
            i <= bits.len(),
            forall|k: int| 0 <= k < i ==> bits@[k] != 'x' && bits@[k] != 'z',
        decreases bits.len() - i,
    {
        if bits[i] == 'x' || bits[i] == 'z' {
            assert(bits@[i as int] == 'x' || bits@[i as int] == 'z');
            return true;
        }
        i += 1;
    }
    false
}

/// The shown bits of a recorded logic value, before extension.
fn visible_bits(raw: &str, width: usize, Ghost(declared): Ghost<u32>) -> (v: Vec<char>)
    requires
        width == shown_width(declared),
    ensures
        v@ == shown_bits(raw@, declared),
{
    let folded: Vec<char> = fold_states(raw);
    if folded.len() > width {
        let xs: String = repeat('x', width);
        chars_of(xs.as_str())
    } else {
        folded
    }
}

fn append_chars(out: &mut Vec<char>, more: &Vec<char>)
    ensures
        final(out)@ == old(out)@ + more@,
{
    let mut i: usize = 0;
    assert(out@ =~= old(out)@ + more@.take(0));
    while i < more.len()
        invariant
            i <= more.len(),
            out@ == old(out)@ + more@.take(i as int),
        decreases more.len() - i,
    {
        out.push(more[i]);
        i += 1;
        assert(out@ =~= old(out)@ + more@.take(i as int));
    }
    assert(more@.take(i as int) =~= more@);
}

fn all_of(v: &Vec<char>) -> (s: String)
    ensures
        s@ == v@,
{
    let n: usize = v.len();
    let s: String = string_of(v, 0, n);
    assert(v@.subrange(0, n as int) =~= v@);
    s
}

fn fmt_bits(raw: &str, width: u32) -> (r: String)
    ensures
        r@ == bits_text(raw@, width),
{
    let w: usize = if width == 0 {
        1
    } else {
        width as usize
    };
    let bits: Vec<char> = visible_bits(raw, w, Ghost(width));
    if w == 1 {
        return all_of(&bits);
    }
    let full: Vec<char> = left_extend(&bits, w);
    let mut out: Vec<char> = Vec::new();
    if holds_unknown(&full) {
        out.push('b');
        append_chars(&mut out, &full);
        assert(out@ =~= seq!['b'] + full@);
        return all_of(&out);
    }
    let tens: Vec<u32> = bits_limbs(&full, 10);
    let decimal: Vec<char> = limbs_text(&tens, 10);
    append_chars(&mut out, &decimal);
    out.push(' ');
    out.push('(');
    out.push('0');
    out.push('x');
    let nibbles: Vec<u32> = bits_limbs(&full, 16);
    let core: Vec<char> = limbs_text(&nibbles, 16);
    let hw: usize = w / 4 + (if w % 4 == 0 {
        0usize
    } else {
        1usize
    });
    assert(hw == (w + 3) / 4);
    let ghost head = out@;
    if core.len() < hw {
        let zeros: String = repeat('0', hw - core.len());
        let pad: Vec<char> = chars_of(zeros.as_str());
        append_chars(&mut out, &pad);
    }
    append_chars(&mut out, &core);
    assert(out@ =~= head + padded_hex(bits_value(full@), hw as nat));
    out.push(')');
    assert(out@ =~= bits_text(raw@, width));
    all_of(&out)
}

/// Format a recorded value for text output.
///
/// * an event prints `triggered`
/// * a real or a string prints as it is
/// * one bit prints `0`, `1`, `x` or `z`
/// * a known vector prints `<decimal> (0x<hex>)`, the hex padded to the width
/// * a vector with unknown bits prints `b<bits>`
///
/// `raw` is the bit string of a logic value, highest bit first, or the literal
/// text of a real or a string.
pub fn fmt_val(raw: &str, kind: ValueKind, width: u32) -> (r: String)
    ensures
        r@ == value_text(raw@, kind, width),
{
    match kind {
        ValueKind::Event => "triggered".to_owned(),
        ValueKind::Real => raw.to_owned(),
        ValueKind::Str => raw.to_owned(),
        ValueKind::Bits => fmt_bits(raw, width),
    }
}

fn compact_bits(raw: &str, width: u32) -> (r: String)
    ensures
        r@ == bits_compact(raw@, width),
{
    let w: usize = if width == 0 {
        1
    } else {
        width as usize
    };
    let bits: Vec<char> = visible_bits(raw, w, Ghost(width));
    let full: Vec<char> = left_extend(&bits, w);
    let mut out: Vec<char> = Vec::new();
    if holds_unknown(&full) {
        out.push('b');
        append_chars(&mut out, &full);
        assert(out@ =~= seq!['b'] + full@);
        return all_of(&out);
    }
    if w == 1 {
        return all_of(&full);
    }
    out.push('0');
    out.push('x');
    let nibbles: Vec<u32> = bits_limbs(&full, 16);
    let core: Vec<char> = limbs_text(&nibbles, 16);
    append_chars(&mut out, &core);
    assert(out@ =~= bits_compact(raw@, width));
    all_of(&out)
}

/// Format a recorded value for structured output: the same as [`fmt_val`] but
/// for logic values, where a known vector is `0x<hex>` and every value with
/// unknown bits is `b<bits>`.
pub fn fmt_val_compact(raw: &str, kind: ValueKind, width: u32) -> (r: String)
    ensures
        r@ == value_compact(raw@, kind, width),
{
    match kind {
        ValueKind::Event => "triggered".to_owned(),
        ValueKind::Real => raw.to_owned(),
        ValueKind::Str => raw.to_owned(),
        ValueKind::Bits => compact_bits(raw, width),
    }
}

/// In structured output a logic value begins with `b` exactly when it has an
/// unknown bit.
pub proof fn unknown_bits_show_as_b(raw: Seq<char>, width: u32)
    ensures
        value_compact(raw, ValueKind::Bits, width).len() > 0,
        value_compact(raw, ValueKind::Bits, width)[0] == 'b' <==> has_unknown_bit(
            shown_bits(raw, width),
        ),
{
    let w = shown_width(width);
    let bits = shown_bits(raw, width);
    let full = left_extended(bits, w);
    let pad = (full.len() - bits.len()) as int;
    assert forall|c: char| c != '0' implies has_char(full, c) == has_char(bits, c) by {
        if has_char(bits, c) {
            let i = choose|i: int| 0 <= i < bits.len() && bits[i] == c;
            assert(full[pad + i] == c);
        }
        if has_char(full, c) {
            let i = choose|i: int| 0 <= i < full.len() && full[i] == c;
            if i >= pad {
                assert(bits[i - pad] == c);
            } else {
                assert(full[i] == extension_of(bits));
                assert(bits[0] == c);
            }
        }
    }
    assert(full.len() >= 1);
    if !has_unknown_bit(full) {
        if pad == 0 {
            assert(full[0] == bits[0]);
        } else {
            assert(full[0] == extension_of(bits));
        }
    }
}

} // verus!
