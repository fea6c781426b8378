use vstd::prelude::*;

verus! {

/// How hashing work is spread over worker threads.
#[derive(Clone, Copy, Debug, PartialEq, Eq, Structural)]
pub enum Concurrency {
    /// One thread hashes every group.
    Sequential,
    /// Groups are cut into contiguous chunks, one per worker.
    Chunked,
    /// Two workers: groups whose first member is in the first tree, and the rest.
    OriginSplit,
}

/// What the quarantine step does after detection.
#[derive(Clone, Copy, Debug, PartialEq, Eq, Structural)]
pub enum QuarantineMode {
    Off,
    /// Move a first-tree member only where the second tree has a file at the
    /// same relative path.
    Normal,
    /// Move every first-tree member.
    Force,
}

/// Which bytes of a file a digest covers.
#[derive(Clone, Copy, Debug, PartialEq, Eq, Structural)]
pub enum DigestMode {
    /// The first and last sample of a large file; the whole of a small one.
    Quick,
    /// The whole file.
    Full,
}

/// The options of one comparison run.
#[derive(Clone, Copy, Debug, PartialEq, Eq, Structural)]
pub struct CompareConfig {
    pub content: bool,
    pub name: bool,
    pub size: bool,
    pub quick: bool,
    /// With `quick`: use the quick digest only to shrink the candidate groups,
    /// then hash the survivors in full (when `content` is set).
    pub quick_prefilter: bool,
    pub bidirectional: bool,
    pub concurrency: Concurrency,
    pub hdd_optimized: bool,
    pub quarantine: QuarantineMode,
    pub debug: bool,
}

/// With no primary comparison chosen, content and size are compared; content
/// comparison implies size comparison.
pub open spec fn normalized_spec(c: CompareConfig) -> CompareConfig {
    let content = c.content || (!c.content && !c.name && !c.size);
    CompareConfig { content, size: c.size || content, ..c }
}

/// The digest passes that a run makes over the candidate groups, in order.
pub open spec fn passes_spec(c: CompareConfig) -> Seq<DigestMode> {
    if c.quick {
        if c.quick_prefilter && c.content {
            seq![DigestMode::Quick, DigestMode::Full]
        } else {
            seq![DigestMode::Quick]
        }
    } else if c.content {
        seq![DigestMode::Full]
    } else {
        Seq::empty()
    }
}

impl CompareConfig {
    /// Applies the defaults: content and size where no primary comparison is
    /// chosen, and size wherever content is compared.
    pub fn normalized(self) -> (r: CompareConfig)
        ensures
            r == normalized_spec(self),
    {
        let mut r = self;
        if !r.content && !r.name && !r.size {
            r.content = true;
        }
        if r.content {
            r.size = true;
        }
        r
    }
}

/// The digest passes of a run: none without content comparison or quick
/// check; the quick digest alone when quick check is asked without the
/// pre-filter; quick then full with it; else the full digest.
pub fn digest_passes(c: &CompareConfig) -> (r: Vec<DigestMode>)
    ensures
        r@ == passes_spec(*c),
{
    let mut r: Vec<DigestMode> = Vec::new();
    if c.quick {
        r.push(DigestMode::Quick);
        if c.quick_prefilter && c.content {
            r.push(DigestMode::Full);
        }
    } else if c.content {
        r.push(DigestMode::Full);
    }
    assert(r@ =~= passes_spec(*c));
    r
}

} // verus!
