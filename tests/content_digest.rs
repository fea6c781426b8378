use duptool::config::DigestMode;
use duptool::fingerprint::{next_read, Fingerprinter, QUICK_SAMPLE, READ_CHUNK};

fn digest_of(content: &[u8], mode: DigestMode) -> String {
    let mut fp = Fingerprinter::new();
    let mut done: u64 = 0;
    while let Some((off, n)) = next_read(content.len() as u64, mode, done) {
        fp.consume(&content[off as usize..(off + n) as usize]);
        done += n;
    }
    fp.finish()
}

#[test]
fn md5_of_known_inputs() {
    assert_eq!(Fingerprinter::new().finish(), "d41d8cd98f00b204e9800998ecf8427e");
    let mut fp = Fingerprinter::new();
    fp.consume(b"abc");
    assert_eq!(fp.finish(), "900150983cd24fb0d6963f7d28e17f72");
    let mut split = Fingerprinter::new();
    split.consume(b"ab");
    split.consume(b"c");
    assert_eq!(split.finish(), "900150983cd24fb0d6963f7d28e17f72");
}

#[test]
fn quick_digest_of_small_file_is_full_digest() {
    let content: Vec<u8> = (0..200_000u32).map(|i| (i % 251) as u8).collect();
    assert_eq!(digest_of(&content, DigestMode::Quick), digest_of(&content, DigestMode::Full));
    let len = 2 * QUICK_SAMPLE;
    for done in [0, 1, READ_CHUNK, QUICK_SAMPLE, len - 1] {
        assert_eq!(next_read(len, DigestMode::Quick, done), next_read(len, DigestMode::Full, done));
    }
}

#[test]
fn full_reads_cover_the_file_in_chunks() {
    assert_eq!(next_read(100, DigestMode::Full, 0), Some((0, 100)));
    assert_eq!(next_read(100, DigestMode::Full, 100), None);
    assert_eq!(next_read(200_000, DigestMode::Full, 0), Some((0, READ_CHUNK)));
    assert_eq!(next_read(200_000, DigestMode::Full, 3 * READ_CHUNK), Some((3 * READ_CHUNK, 200_000 - 3 * READ_CHUNK)));
    assert_eq!(next_read(0, DigestMode::Full, 0), None);
}

#[test]
fn quick_reads_take_head_and_tail() {
    let len = 20 * 1024 * 1024;
    assert_eq!(next_read(len, DigestMode::Quick, 0), Some((0, READ_CHUNK)));
    assert_eq!(next_read(len, DigestMode::Quick, QUICK_SAMPLE - 1), Some((QUICK_SAMPLE - 1, 1)));
    assert_eq!(next_read(len, DigestMode::Quick, QUICK_SAMPLE), Some((len - QUICK_SAMPLE, READ_CHUNK)));
    assert_eq!(next_read(len, DigestMode::Quick, 2 * QUICK_SAMPLE), None);
    assert_eq!(next_read(len, DigestMode::Full, 2 * QUICK_SAMPLE), Some((2 * QUICK_SAMPLE, READ_CHUNK)));
}

#[test]
fn quick_digest_ignores_the_middle_of_large_files() {
    let len = (2 * QUICK_SAMPLE + 1000) as usize;
    let mut a = vec![7u8; len];
    let mut b = a.clone();
    b[len / 2] = 8;
    assert_eq!(digest_of(&a, DigestMode::Quick), digest_of(&b, DigestMode::Quick));
    assert_ne!(digest_of(&a, DigestMode::Full), digest_of(&b, DigestMode::Full));
    a[0] = 9;
    assert_ne!(digest_of(&a, DigestMode::Quick), digest_of(&b, DigestMode::Quick));
}
