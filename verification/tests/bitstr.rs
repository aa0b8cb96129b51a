use rwave::bitstr::{BitStr, INLINE_CAP};
use rwave::history::RawValue;

#[test]
fn inline_and_heap_roundtrip() {
    for s in ["", "0", "1", "x", "z", "0101", "xxxxzzzz", &"1".repeat(23)] {
        let b = BitStr::new(s);
        assert_eq!(b.as_str(), s, "roundtrip {s:?}");
        assert_eq!(b.len(), s.len());
        assert!(matches!(b, BitStr::Inline { .. }), "{s:?} should be inline");
    }
    // Just over the inline boundary -> heap.
    let long = "1".repeat(24);
    let b = BitStr::new(&long);
    assert_eq!(b.as_str(), long);
    assert!(matches!(b, BitStr::Heap(_)), "24 chars should spill to heap");

    // A very wide bus value.
    let wide = "10xz".repeat(40); // 160 chars
    let b = BitStr::new(&wide);
    assert_eq!(b.as_str(), wide);
    assert!(matches!(b, BitStr::Heap(_)));
}

#[test]
fn boundary_exactly_inline_cap() {
    let s = "0".repeat(INLINE_CAP);
    let b = BitStr::new(&s);
    assert!(matches!(b, BitStr::Inline { .. }));
    assert_eq!(b.as_str(), s);
}

#[test]
fn equality_inline_vs_heap_same_content() {
    // Same content must compare equal regardless of storage. (Construct a
    // heap variant explicitly to exercise the cross-representation path.)
    let inline = BitStr::new("0101");
    let heap = BitStr::Heap("0101".to_string());
    assert_eq!(inline, heap);
    assert_eq!(heap, inline);
    assert_ne!(BitStr::new("0101"), BitStr::new("0100"));
    assert_ne!(BitStr::new("01"), BitStr::new("010"));
}

#[test]
fn clone_preserves_value() {
    let a = BitStr::new("1x0z");
    let b = a.clone();
    assert_eq!(a, b);
    assert_eq!(b.as_str(), "1x0z");
    let h = BitStr::new(&"z".repeat(50));
    let hc = h.clone();
    assert_eq!(h, hc);
}

#[test]
fn debug_reads_like_string() {
    assert_eq!(BitStr::new("0101").debug_text(), "\"0101\"");
}

#[test]
fn struct_size_is_bounded() {
    // The point of the inline buffer is to avoid per-change heap allocation
    // without enlarging `RawValue`. `RawValue` is dominated by its largest
    // variant and an 8-byte-aligned discriminant; a `String` is 24 bytes and
    // `RawValue` is already 32 bytes (discriminant + alignment), so a 32-byte
    // `BitStr` leaves `RawValue`'s size unchanged. Guard that bound here.
    let sz = std::mem::size_of::<BitStr>();
    assert!(sz <= 32, "BitStr size {sz} exceeds 32 bytes");
    // The inline buffer must still hold the documented capacity.
    assert!(INLINE_CAP >= 23, "inline capacity regressed to {INLINE_CAP}");
}

#[test]
fn raw_value_does_not_grow() {
    // The enclosing RawValue (Bits(BitStr) | Real(f64) | Str(String) |
    // Event) must not be larger than it was with Bits(String). Both are
    // 32 bytes on 64-bit targets.
    assert!(
        std::mem::size_of::<RawValue>() <= 32,
        "RawValue grew to {} bytes",
        std::mem::size_of::<RawValue>()
    );
}

#[test]
fn the_empty_text_is_empty() {
    let b = BitStr::new("");
    assert!(b.is_empty());
    assert_eq!(b.len(), 0);
    assert!(matches!(b, BitStr::Inline { len: 0, .. }));
    let b = BitStr::new("\u{b5}");
    assert!(!b.is_empty());
    assert_eq!(b.len(), 2);
    let b = BitStr::from_ascii_iter(2, &vec!['1', '\u{b5}']);
    assert_eq!(b.as_str(), "1x");
    assert_eq!(b.len(), 2);
}
