use modarith::codec::{join, split};
use modarith::ArithError;

#[test]
fn split_produces_little_endian_words() {
    let ws: Vec<u64> = split(0x0102_0304, 8, 4);
    assert_eq!(ws, vec![0x04, 0x03, 0x02, 0x01]);
    let ws: Vec<u64> = split(0xDEAD_BEEF_0000_0001, 32, 2);
    assert_eq!(ws, vec![0x0000_0001, 0xDEAD_BEEF]);
}

#[test]
fn split_zero_extends_high_words() {
    let ws: Vec<u64> = split(0xFF, 8, 4);
    assert_eq!(ws, vec![0xFF, 0, 0, 0]);
}

#[test]
fn join_inverts_split() {
    for v in [0u64, 1, 0xFF, 0xDEAD_BEEF, u64::MAX, 27311837] {
        for w in [1usize, 8, 16, 32, 63, 64] {
            let count: usize = (64 + w - 1) / w;
            let ws: Vec<u64> = split(v, w, count);
            assert_eq!(join(&ws, w).unwrap(), v, "value {v} width {w}");
        }
    }
}

#[test]
fn join_detects_overflow() {
    // 2^64 needs 9 bytes: the ninth word pushes the value out of range
    let mut ws: Vec<u64> = vec![0u64; 8];
    ws.push(1);
    assert_eq!(join(&ws, 8).unwrap_err(), ArithError::Overflow);
    // but the same words without the ninth fit exactly
    let ws: Vec<u64> = vec![0xFFu64; 8];
    assert_eq!(join(&ws, 8).unwrap(), u64::MAX);
}
