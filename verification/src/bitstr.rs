//! A small string for logic values: short values are stored inline, long ones
//! on the heap.

use vstd::prelude::*;
use vstd::slice::slice_subrange;
use vstd::utf8::{decode_utf8, encode_utf8, valid_utf8};

use crate::text::{same, string_of};

verus! {

/// The number of bytes stored inline.
pub const INLINE_CAP: usize = 23;

/// A compact string for logic values.
#[derive(Debug)]
pub enum BitStr {
    /// The first `len` bytes of `buf`.
    Inline { buf: [u8; 23], len: u8 },
    /// A value longer than [`INLINE_CAP`] bytes.
    Heap(String),
}

/// `std::str::from_utf8`: the text of a byte string, if it is UTF-8.
#[verifier::external_body]
fn utf8_text(b: &[u8]) -> (r: Option<&str>)
    ensures
        match r {
            Some(s) => valid_utf8(b@) && s@ == decode_utf8(b@),
            None => !valid_utf8(b@),
        },
{
    std::str::from_utf8(b).ok()
}

/// What the `Debug` format of a string slice looks like.
pub uninterp spec fn debug_form(s: Seq<char>) -> Seq<char>;

/// Is `c` an ASCII letter, an ASCII digit or a hyphen?
pub open spec fn is_plain(c: char) -> bool {
    ||| '0' <= c && c <= '9'
    ||| 'a' <= c && c <= 'z'
    ||| 'A' <= c && c <= 'Z'
    ||| c == '-'
}

/// The `Debug` format of a string slice, called [`debug_form`] here: the text
/// in double quotes with some characters escaped. ASCII letters, digits and
/// hyphens are never escaped; which other characters are is not stated.
#[verifier::external_body]
fn debug_of(s: &str) -> (r: String)
    ensures
        r@ == debug_form(s@),
        (forall|i: int| 0 <= i < s@.len() ==> is_plain(#[trigger] s@[i])) ==> r@ == seq!['"'] + s@
            + seq!['"'],
{
    format!("{:?}", s)
}

/// The text of a byte string, empty when it is not UTF-8.
pub open spec fn text_or_empty(b: Seq<u8>) -> Seq<char> {
    if valid_utf8(b) {
        decode_utf8(b)
    } else {
        Seq::empty()
    }
}

/// The number of inline bytes in use.
pub open spec fn used_len(len: u8) -> nat {
    if len <= 23 {
        len as nat
    } else {
        23
    }
}

impl View for BitStr {
    type V = Seq<char>;

    open spec fn view(&self) -> Seq<char> {
        match self {
            BitStr::Inline { buf, len } => text_or_empty(buf@.take(used_len(*len) as int)),
            BitStr::Heap(s) => s@,
        }
    }
}

/// A character as stored inline: anything outside ASCII becomes `x`.
pub open spec fn ascii_or_x(c: char) -> char {
    if (c as int) < 128 {
        c
    } else {
        'x'
    }
}

proof fn lemma_char_range(c: char)
    ensures
        0 <= c as int,
{
}

proof fn lemma_ascii_text(b: Seq<u8>, s: Seq<char>)
    requires
        b.len() == s.len(),
        forall|i: int| 0 <= i < s.len() ==> (#[trigger] s[i] as int) < 128 && b[i] == s[i] as u8,
    ensures
        text_or_empty(b) == s,
        b == encode_utf8(s),
{
    assert forall|i: int| 0 <= i < s.len() implies '\0' <= #[trigger] s[i] <= '\u{7f}' by {
        lemma_char_range(s[i]);
        assert((s[i] as int) < 128);
    }
    vstd::utf8::is_ascii_chars_encode_utf8(s);
    assert(encode_utf8(s) =~= b);
    vstd::utf8::encode_utf8_valid_utf8(s);
    vstd::utf8::encode_utf8_decode_utf8(s);
}

fn ascii_byte(c: char) -> (b: u8)
    ensures
        (ascii_or_x(c) as int) < 128,
        b == ascii_or_x(c) as u8,
{
    if (c as u32) < 128 {
        c as u8
    } else {
        120
    }
}

impl BitStr {
    /// Is the value stored inline?
    pub open spec fn is_inline(&self) -> bool {
        self is Inline
    }

    /// Build from characters, of which `len` are announced. Up to
    /// [`INLINE_CAP`] announced characters are stored inline: the first
    /// [`INLINE_CAP`] of `chars`, with `x` for anything outside ASCII. A longer
    /// value keeps all its characters.
    pub fn from_ascii_iter(len: usize, chars: &Vec<char>) -> (r: BitStr)
        ensures
            r.is_inline() == (len <= 23),
            len > 23 ==> r@ == chars@,
            len <= 23 ==> r@ == chars@.take(
                if chars@.len() < 23 {
                    chars@.len() as int
                } else {
                    23
                },
            ).map_values(|c: char| ascii_or_x(c)),
            r matches BitStr::Inline { buf, len: used } ==> buf@.take(used_len(used) as int)
                == encode_utf8(r@),
    {
        if len <= 23 {
            let mut buf: [u8; 23] = [0u8; 23];
            let n: usize = if chars.len() < 23 {
                chars.len()
            } else {
                23
            };
            let ghost want = chars@.take(n as int).map_values(|c: char| ascii_or_x(c));
            let mut i: usize = 0;
            while i < n
                invariant
                    i <= n <= 23,
                    n <= chars.len(),
                    want == chars@.take(n as int).map_values(|c: char| ascii_or_x(c)),
                    forall|k: int|
                        0 <= k < i ==> (#[trigger] want[k] as int) < 128 && buf@[k]
                            == want[k] as u8,
                decreases n - i,
            {
                let byte: u8 = ascii_byte(chars[i]);
                buf[i] = byte;
                i += 1;
            }
            proof {
                lemma_ascii_text(buf@.take(n as int), want);
            }
            BitStr::Inline { buf, len: n as u8 }
        } else {
            let s: String = string_of(chars, 0, chars.len());
            assert(s@ =~= chars@);
            BitStr::Heap(s)
        }
    }

    /// Build from a string, inline when it fits.
    pub fn new(s: &str) -> (r: BitStr)
        ensures
            r@ == s@,
            r.is_inline() == (encode_utf8(s@).len() <= 23),
            r matches BitStr::Inline { buf, len } ==> buf@.take(used_len(len) as int)
                == encode_utf8(s@),
    {
        let bytes: &[u8] = s.as_bytes();
        let n: usize = bytes.len();
        if n <= 23 {
            let mut buf: [u8; 23] = [0u8; 23];
            let mut i: usize = 0;
            while i < n
                invariant
                    i <= n <= 23,
                    n == bytes.len(),
                    forall|k: int| 0 <= k < i ==> buf@[k] == bytes@[k],
                decreases n - i,
            {
                buf[i] = bytes[i];
                i += 1;
            }
            proof {
                assert(buf@.take(n as int) =~= encode_utf8(s@));
                vstd::utf8::encode_utf8_valid_utf8(s@);
                vstd::utf8::encode_utf8_decode_utf8(s@);
            }
            BitStr::Inline { buf, len: n as u8 }
        } else {
            BitStr::Heap(s.to_owned())
        }
    }

    /// The contents.
    pub fn as_str(&self) -> (s: &str)
        ensures
            s@ == self@,
    {
        match self {
            BitStr::Inline { buf, len } => {
                let all: &[u8] = vstd::array::array_as_slice(buf);
                let n: usize = if *len <= 23 {
                    *len as usize
                } else {
                    23
                };
                let used: &[u8] = slice_subrange(all, 0, n);
                assert(used@ =~= buf@.take(n as int));
                let text: Option<&str> = utf8_text(used);
                match text {
                    Some(s) => s,
                    None => {
                        proof {
                            reveal_strlit("");
                            assert(""@ =~= Seq::<char>::empty());
                        }
                        ""
                    },
                }
            },
            BitStr::Heap(s) => s.as_str(),
        }
    }

    /// The length in bytes.
    pub fn len(&self) -> (n: usize)
        ensures
            n == match self {
                BitStr::Inline { buf, len } => used_len(*len),
                BitStr::Heap(s) => encode_utf8(s@).len(),
            },
    {
        match self {
            BitStr::Inline { buf, len } => if *len <= 23 {
                *len as usize
            } else {
                23
            },
            BitStr::Heap(s) => s.as_str().as_bytes().len(),
        }
    }

    pub fn is_empty(&self) -> (r: bool)
        ensures
            r == match self {
                BitStr::Inline { buf, len } => *len == 0,
                BitStr::Heap(s) => s@.len() == 0,
            },
    {
        match self {
            BitStr::Inline { buf, len } => *len == 0,
            BitStr::Heap(s) => s.as_str().is_empty(),
        }
    }

    /// The contents as a quoted literal.
    pub fn debug_text(&self) -> (s: String)
        ensures
            s@ == debug_form(self@),
            (forall|i: int| 0 <= i < self@.len() ==> is_plain(#[trigger] self@[i])) ==> s@
                == seq!['"'] + self@ + seq!['"'],
    {
        debug_of(self.as_str())
    }
}

impl PartialEq for BitStr {
    fn eq(&self, other: &BitStr) -> (r: bool) {
        same(self.as_str(), other.as_str())
    }
}

impl vstd::std_specs::cmp::PartialEqSpecImpl for BitStr {
    open spec fn obeys_eq_spec() -> bool {
        true
    }

    open spec fn eq_spec(&self, other: &BitStr) -> bool {
        self@ == other@
    }
}

impl Eq for BitStr {

}

impl Clone for BitStr {
    fn clone(&self) -> (r: BitStr)
        ensures
            r == *self,
    {
        match self {
            BitStr::Inline { buf, len } => BitStr::Inline { buf: *buf, len: *len },
            BitStr::Heap(s) => BitStr::Heap(s.clone()),
        }
    }
}

} // verus!
