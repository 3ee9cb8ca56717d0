use jsonstat::order::{compare_bytes, compare_text, Rank};
use std::cmp::Ordering;

fn rank_of(o: Ordering) -> Rank {
    match o {
        Ordering::Less => Rank::Below,
        Ordering::Equal => Rank::Same,
        Ordering::Greater => Rank::Above,
    }
}

#[test]
fn compare_bytes_is_lexicographic() {
    let samples: Vec<&[u8]> =
        vec![b"", b"a", b"ab", b"abc", b"abd", b"b", b"\x00", b"\xff", b"a\x00", b"\xff\xff"];
    for a in &samples {
        for b in &samples {
            assert_eq!(compare_bytes(a, b), rank_of(a.cmp(b)), "{:?} {:?}", a, b);
        }
    }
    assert_eq!(compare_bytes(b"ab", b"abc"), Rank::Below);
    assert_eq!(compare_bytes(b"abd", b"abc"), Rank::Above);
    assert_eq!(compare_bytes(b"", b""), Rank::Same);
}

#[test]
fn compare_text_is_the_order_of_str() {
    let samples = vec![
        "", ".", ".a", ".a.b", ".a[]", ".ab", ".b", "a", "A", "é", "日本", "z", "[]", "~",
        "\u{10FFFF}",
    ];
    for a in &samples {
        for b in &samples {
            assert_eq!(compare_text(a, b), rank_of(a.cmp(b)), "{:?} {:?}", a, b);
        }
    }
    assert_eq!(compare_text(".a", ".a[]"), Rank::Below);
    assert_eq!(compare_text(".b", ".a[]"), Rank::Above);
    assert_eq!(compare_text("é", "é"), Rank::Same);
}
