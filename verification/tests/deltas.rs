use dsync::delta::apply;
use dsync::delta::block_size_for;
use dsync::delta::diff;
use dsync::delta::signature;
use dsync::delta::sizes_are_sane;
use dsync::delta::Delta;
use dsync::delta::Signature;
use rand::rngs::StdRng;
use rand::Rng;
use rand::RngCore;
use rand::SeedableRng;

fn roundtrip(basis: &[u8], new: &[u8]) {
    let sig = signature(basis).unwrap();
    let delta = diff(&sig, new).unwrap();
    let out = apply(basis, &delta).unwrap();
    assert_eq!(out, new, "roundtrip mismatch");
}

#[test]
fn block_size_examples() {
    assert_eq!(block_size_for(1_000_000), 1024);
    assert_eq!(block_size_for(0), 1024);
    assert_eq!(block_size_for(u64::MAX), 131_072);
}

#[test]
fn identical_files() {
    let mut rng = StdRng::seed_from_u64(1);
    let mut data = vec![0u8; 50_000];
    rng.fill_bytes(&mut data);
    roundtrip(&data, &data);
    let sig = signature(&data).unwrap();
    let delta = diff(&sig, &data).unwrap();
    assert!(delta.0.len() < data.len() / 4, "delta not small for identical files");
}

#[test]
fn fully_different() {
    let mut rng = StdRng::seed_from_u64(2);
    let mut a = vec![0u8; 20_000];
    let mut b = vec![0u8; 20_000];
    rng.fill_bytes(&mut a);
    rng.fill_bytes(&mut b);
    roundtrip(&a, &b);
}

#[test]
fn empty_cases() {
    roundtrip(&[], &[]);
    roundtrip(&[], b"hello world");
    roundtrip(b"hello world", &[]);
}

#[test]
fn smaller_than_block() {
    roundtrip(b"abc", b"abcd");
}

#[test]
fn single_byte_changes() {
    let mut rng = StdRng::seed_from_u64(3);
    let mut base = vec![0u8; 30_000];
    rng.fill_bytes(&mut base);
    for pos in [0usize, 15_000, 29_999] {
        let mut new = base.clone();
        new[pos] ^= 0xFF;
        roundtrip(&base, &new);
    }
}

#[test]
fn insert_and_delete() {
    let mut rng = StdRng::seed_from_u64(4);
    let mut base = vec![0u8; 40_000];
    rng.fill_bytes(&mut base);
    let mut ins = base.clone();
    ins.splice(20_000..20_000, b"INSERTED PAYLOAD".iter().cloned());
    roundtrip(&base, &ins);
    let mut del = base.clone();
    del.drain(10_000..10_500);
    roundtrip(&base, &del);
}

#[test]
fn large_file_small_change_yields_small_delta() {
    let mut rng = StdRng::seed_from_u64(5);
    let mut base = vec![0u8; 4_000_000];
    rng.fill_bytes(&mut base);
    let mut new = base.clone();
    for i in 0..16 {
        new[1_000_000 + i] = rng.gen();
    }
    let sig = signature(&base).unwrap();
    let delta = diff(&sig, &new).unwrap();
    let out = apply(&base, &delta).unwrap();
    assert_eq!(out, new);
    assert!(
        delta.0.len() < base.len() / 10,
        "expected a delta much shorter than the file, got {} of {}",
        delta.0.len(),
        base.len()
    );
}

#[test]
fn block_sizes_are_nearest_to_the_square_root() {
    let nearest = |n: u64| {
        let x = (n as f64).sqrt();
        let mut best = 1024u32;
        for k in 10..=17 {
            let p = 1u32 << k;
            if (x - p as f64).abs() <= (x - best as f64).abs() {
                best = p;
            }
        }
        best
    };
    for k in 10..17u32 {
        let middle = 3u64 << (k - 1);
        for n in [middle * middle - 1, middle * middle, middle * middle + 1] {
            assert_eq!(block_size_for(n), nearest(n), "{n}");
        }
        assert_eq!(block_size_for(middle * middle - 1), 1 << k);
        assert_eq!(block_size_for(middle * middle), 1 << (k + 1));
    }
    assert_eq!(block_size_for(2_250_000), 1024);
    assert_eq!(block_size_for(1 << 35), 131_072);
}

#[test]
fn a_signature_has_a_header_and_an_entry_for_each_block() {
    let sig = signature(&vec![7u8; 2500]).unwrap();
    assert_eq!(&sig.0[..12], &[0x72, 0x73, 0x01, 0x36, 0, 0, 4, 0, 0, 0, 0, 8]);
    assert_eq!(sig.0.len(), 12 + 3 * 12);
    assert_eq!(sig.0[12..24], sig.0[24..36]);
    assert!(sizes_are_sane(&sig));
    assert_eq!(signature(&[]).unwrap().0.len(), 12);
}

#[test]
fn signatures_that_are_none() {
    let say = |bytes: Vec<u8>| diff(&Signature(bytes), b"x").unwrap_err().message();
    let none = "invalid signature: invalid or unsupported signature";
    assert_eq!(say(vec![]), none);
    assert_eq!(say(vec![0; 12]), none);
    let mut torn = signature(b"some bytes").unwrap().0;
    torn.pop();
    assert_eq!(say(torn), none);
    let blake2 = vec![0x72, 0x73, 0x01, 0x37, 0, 0, 4, 0, 0, 0, 0, 8];
    let unusable = "delta diff failed: invalid or unsupported signature for diff";
    assert_eq!(say(blake2), unusable);
    let long_hash = vec![0x72, 0x73, 0x01, 0x36, 0, 0, 4, 0, 0, 0, 0, 17];
    assert_eq!(say(long_hash), unusable);
}

#[test]
fn a_usable_signature_has_blocks() {
    let empty_blocks = Signature(vec![0x72, 0x73, 0x01, 0x36, 0, 0, 0, 0, 0, 0, 0, 8]);
    assert!(!sizes_are_sane(&empty_blocks));
    assert!(sizes_are_sane(&Signature(vec![])));
    assert!(sizes_are_sane(&Signature(vec![0; 12])));
    assert!(sizes_are_sane(&Signature(vec![0x72, 0x73, 0x01, 0x37, 0, 0, 0, 0, 0, 0, 0, 8])));
}

#[test]
fn deltas_that_are_none() {
    let e = apply(b"base", &Delta(vec![1, 2, 3])).unwrap_err();
    let mut out = Vec::new();
    let reason = fast_rsync::apply(b"base", &[1, 2, 3], &mut out).unwrap_err().to_string();
    assert_eq!(e.message(), format!("delta apply failed: {reason}"));
    let sig = signature(b"base").unwrap();
    let mut delta = diff(&sig, b"other").unwrap();
    assert_ne!(delta.0, b"other");
    delta.0.push(0);
    assert!(apply(b"base", &delta).is_err());
}
