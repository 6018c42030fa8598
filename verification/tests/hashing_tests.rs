use fdedup::hashing::digest_of_bytes;
use fdedup::hashing::digest_of_chunks;
use fdedup::hashing::Hasher;

fn hex(bytes: &[u8]) -> String {
    let mut s = String::new();
    for b in bytes {
        s.push_str(&format!("{:02x}", b));
    }
    s
}

#[test]
fn digest_of_abc_is_the_md5_of_abc() {
    let d = digest_of_bytes(b"abc");
    assert_eq!(hex(&d), "900150983cd24fb0d6963f7d28e17f72");
}

#[test]
fn digest_of_empty_is_the_md5_of_nothing() {
    let d = digest_of_bytes(b"");
    assert_eq!(hex(&d), "d41d8cd98f00b204e9800998ecf8427e");
}

#[test]
fn digest_is_sixteen_bytes() {
    assert_eq!(digest_of_bytes(b"anything at all").len(), 16);
}

#[test]
fn digest_agrees_with_the_md5_crate() {
    let data = b"the quick brown fox jumps over the lazy dog";
    let ours = digest_of_bytes(data);
    let theirs = md5::compute(data).0.to_vec();
    assert_eq!(ours, theirs);
}

#[test]
fn chunked_stream_digests_as_the_concatenation() {
    let whole = digest_of_bytes(b"abc");
    let mut h = Hasher::new();
    h.update(b"ab");
    h.update(b"c");
    assert_eq!(h.finish(), whole);
}

#[test]
fn chunk_boundaries_do_not_matter() {
    let chunks_a: Vec<Vec<u8>> = vec![b"hello ".to_vec(), b"world".to_vec()];
    let chunks_b: Vec<Vec<u8>> = vec![
        b"h".to_vec(),
        b"ello w".to_vec(),
        b"".to_vec(),
        b"orld".to_vec(),
    ];
    assert_eq!(digest_of_chunks(&chunks_a), digest_of_chunks(&chunks_b));
    assert_eq!(digest_of_chunks(&chunks_a), digest_of_bytes(b"hello world"));
}

#[test]
fn identical_content_identical_digest() {
    assert_eq!(digest_of_bytes(b"same bytes"), digest_of_bytes(b"same bytes"));
}

#[test]
fn differing_content_differing_digest() {
    assert_ne!(digest_of_bytes(b"one file"), digest_of_bytes(b"another file"));
}

#[test]
fn no_chunks_digest_as_the_empty_stream() {
    let none: Vec<Vec<u8>> = Vec::new();
    assert_eq!(digest_of_chunks(&none), digest_of_bytes(b""));
}
