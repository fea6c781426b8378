use vstd::prelude::*;
use crate::config::DigestMode;

verus! {

/// Bytes taken from each end of a large file by the quick digest.
pub const QUICK_SAMPLE: u64 = 8 * 1024 * 1024;

/// Bytes asked of the file in one read.
pub const READ_CHUNK: u64 = 64 * 1024;

#[verifier::external_type_specification]
#[verifier::external_body]
pub struct ExMd5Context(md5::Context);

/// The bytes an MD5 context has been fed so far.
pub uninterp spec fn md5_fed(c: md5::Context) -> Seq<u8>;

/// The lowercase hexadecimal MD5 digest of a byte sequence.
pub uninterp spec fn md5_hex(data: Seq<u8>) -> Seq<char>;

/// Relies on md5::Context::new: a fresh context has been fed nothing.
#[verifier::external_body]
fn md5_start() -> (r: md5::Context)
    ensures
        md5_fed(r) == Seq::<u8>::empty(),
{
    md5::Context::new()
}

/// Relies on md5::Context::consume: the data is appended to what the context
/// has been fed.
#[verifier::external_body]
fn md5_feed(c: &mut md5::Context, data: &[u8])
    ensures
        md5_fed(*final(c)) == md5_fed(*old(c)) + data@,
{
    c.consume(data)
}

/// Relies on md5::Context::compute and the digest's `LowerHex` format: the
/// digest of everything fed, as lowercase hexadecimal.
#[verifier::external_body]
fn md5_finish(c: md5::Context) -> (r: String)
    ensures
        r@ == md5_hex(md5_fed(c)),
{
    format!("{:x}", c.compute())
}

/// An MD5 digest being computed over the bytes fed to it.
pub struct Fingerprinter {
    ctx: md5::Context,
}

impl Fingerprinter {
    /// The bytes fed so far.
    pub closed spec fn fed(&self) -> Seq<u8> {
        md5_fed(self.ctx)
    }

    pub fn new() -> (r: Fingerprinter)
        ensures
            r.fed() == Seq::<u8>::empty(),
    {
        Fingerprinter { ctx: md5_start() }
    }

    pub fn consume(&mut self, data: &[u8])
        ensures
            final(self).fed() == old(self).fed() + data@,
    {
        md5_feed(&mut self.ctx, data);
    }

    /// The digest of everything fed.
    pub fn finish(self) -> (r: String)
        ensures
            r@ == md5_hex(self.fed()),
    {
        md5_finish(self.ctx)
    }
}


/// The quick digest samples a file only when it is longer than both samples
/// together; a shorter file is digested whole.
pub open spec fn is_sampled(len: nat, mode: DigestMode) -> bool {
    mode == DigestMode::Quick && len > 2 * QUICK_SAMPLE
}

/// The bytes a digest of the given mode covers.
pub open spec fn sampled(content: Seq<u8>, mode: DigestMode) -> Seq<u8> {
    if is_sampled(content.len(), mode) {
        content.subrange(0, QUICK_SAMPLE as int) + content.subrange(content.len() - QUICK_SAMPLE, content.len() as int)
    } else {
        content
    }
}

/// The digest of a file's content in the given mode.
pub open spec fn content_digest(content: Seq<u8>, mode: DigestMode) -> Seq<char> {
    md5_hex(sampled(content, mode))
}

/// How many bytes the digest of a file of length `len` covers.
pub open spec fn sample_len(len: nat, mode: DigestMode) -> nat {
    if is_sampled(len, mode) {
        (2 * QUICK_SAMPLE) as nat
    } else {
        len
    }
}

/// Where in the file the `i`-th covered byte is.
pub open spec fn sample_offset(len: nat, mode: DigestMode, i: nat) -> nat {
    if is_sampled(len, mode) && i >= QUICK_SAMPLE {
        (len - 2 * QUICK_SAMPLE + i) as nat
    } else {
        i
    }
}

/// Where the contiguous stretch of the file that holds the `i`-th covered
/// byte ends, counted in covered bytes.
pub open spec fn segment_end(len: nat, mode: DigestMode, i: nat) -> nat {
    if is_sampled(len, mode) && i < QUICK_SAMPLE {
        QUICK_SAMPLE as nat
    } else {
        sample_len(len, mode)
    }
}

/// The read that continues a digest of a file of length `len` after `done`
/// covered bytes: its offset in the file and its length, or `None` once every
/// covered byte has been read. A read never crosses from the head sample to
/// the tail sample and is at most `READ_CHUNK` bytes long.
pub fn next_read(len: u64, mode: DigestMode, done: u64) -> (r: Option<(u64, u64)>)
    ensures
        r is None <==> done >= sample_len(len as nat, mode),
        r matches Some((off, n)) ==> {
            &&& off == sample_offset(len as nat, mode, done as nat)
            &&& n == if segment_end(len as nat, mode, done as nat) - done < READ_CHUNK {
                segment_end(len as nat, mode, done as nat) - done
            } else {
                READ_CHUNK as int
            }
        },
{
    let sampled_file = mode == DigestMode::Quick && len > 2 * QUICK_SAMPLE;
    assert(sampled_file == is_sampled(len as nat, mode));
    let total: u64 = if sampled_file { 2 * QUICK_SAMPLE } else { len };
    if done >= total {
        return None;
    }
    let (off, end) = if sampled_file && done >= QUICK_SAMPLE {
        (len - 2 * QUICK_SAMPLE + done, total)
    } else if sampled_file {
        (done, QUICK_SAMPLE)
    } else {
        (done, total)
    };
    let n = if end - done < READ_CHUNK { end - done } else { READ_CHUNK };
    Some((off, n))
}

/// The bytes that a read of `next_read` returns from the file are the next
/// covered bytes.
pub proof fn lemma_read_in_sample(content: Seq<u8>, mode: DigestMode, done: nat, n: nat)
    requires
        done < sample_len(content.len(), mode),
        0 < n,
        done + n <= segment_end(content.len(), mode, done),
    ensures
        sample_offset(content.len(), mode, done) + n <= content.len(),
        sampled(content, mode).subrange(done as int, (done + n) as int)
            == content.subrange(sample_offset(content.len(), mode, done) as int, (sample_offset(content.len(), mode, done) + n) as int),
{
    let len = content.len();
    let off = sample_offset(len, mode, done);
    let s = sampled(content, mode);
    assert(s.len() == sample_len(len, mode));
    assert(s.subrange(done as int, (done + n) as int) =~= content.subrange(off as int, (off + n) as int));
}

/// A file no longer than both quick samples together has a quick digest
/// equal to its full digest.
pub proof fn lemma_quick_digest_of_small_file(content: Seq<u8>)
    requires
        content.len() <= 2 * QUICK_SAMPLE,
    ensures
        content_digest(content, DigestMode::Quick) == content_digest(content, DigestMode::Full),
{
}

} // verus!
