use vstd::prelude::*;

verus! {

/// How many bytes a merge reads from a source at a time.
pub const CHUNK_SIZE: usize = 1048576;

/// Why a merge stopped.
#[derive(Debug, PartialEq, Eq)]
pub enum MergeError {
    /// The target exists already; it is left as it is.
    TargetAlreadyExists,
    /// A source could not be opened; what was written before it stays in the target.
    SourceNotFound { path: String },
    /// Creating, reading or writing failed; what was written stays in the target.
    IoFailure,
}

/// What the caller is to do next for a merge.
#[derive(Debug, PartialEq, Eq)]
pub enum MergeAction {
    /// Create the target, failing where it exists; then call `target_created`.
    CreateTarget,
    /// Open this source for reading; then call `source_opened`.
    OpenSource { path: String },
    /// Read up to `CHUNK_SIZE` bytes from the open source; then call `chunk_read`
    /// or `read_failed`.
    ReadChunk,
    /// Append these bytes to the target; then call `chunk_written`.
    WriteChunk { bytes: Vec<u8> },
    /// The merge is over, with this outcome.
    Finish { result: Result<(), MergeError> },
}

#[derive(Debug, Clone, Copy, PartialEq, Eq, Structural)]
pub enum MergePhase {
    CheckingTarget,
    CreatingTarget,
    Opening,
    Reading,
    Writing,
    Merged,
    Failed,
}

pub ghost struct MergeView {
    pub sources: Seq<Seq<char>>,
    pub phase: MergePhase,
    /// The source being opened or read.
    pub current: int,
    /// The bytes read from each source so far and written to the target.
    pub copied: Seq<Seq<u8>>,
    /// What the target holds from this merge.
    pub written: Seq<u8>,
    /// The bytes handed out to be written and not yet confirmed.
    pub pending: Seq<u8>,
}

/// Concatenates sources into a new target, in order and byte for byte, in
/// bounded chunks. The decisions are made here; the caller performs each
/// `MergeAction` and reports back what came of it.
pub struct Merger {
    sources: Vec<String>,
    phase: MergePhase,
    current: usize,
    copied: Ghost<Seq<Seq<u8>>>,
    written: Ghost<Seq<u8>>,
    pending: Ghost<Seq<u8>>,
}

impl View for Merger {
    type V = MergeView;

    closed spec fn view(&self) -> MergeView {
        MergeView {
            sources: self.sources@.map_values(|s: String| s@),
            phase: self.phase,
            current: self.current as int,
            copied: self.copied@,
            written: self.written@,
            pending: self.pending@,
        }
    }
}

impl MergeView {
    pub open spec fn wf(self) -> bool {
        &&& self.written == self.copied.flatten()
        &&& match self.phase {
            MergePhase::CheckingTarget | MergePhase::CreatingTarget => self.copied.len() == 0
                && self.current == 0,
            MergePhase::Opening => self.copied.len() == self.current < self.sources.len(),
            MergePhase::Reading => self.copied.len() == self.current + 1 && self.current
                < self.sources.len(),
            MergePhase::Writing => self.copied.len() == self.current + 1 && self.current
                < self.sources.len() && self.pending.len() > 0,
            MergePhase::Merged => self.copied.len() == self.sources.len(),
            MergePhase::Failed => true,
        }
    }

    pub open spec fn is_over(self) -> bool {
        self.phase == MergePhase::Merged || self.phase == MergePhase::Failed
    }
}

/// When a merge has ended in success, the target holds the bytes of the sources
/// one after another, in the order given.
pub proof fn lemma_merged_is_concatenation(m: MergeView)
    requires
        m.wf(),
        m.phase == MergePhase::Merged,
    ensures
        m.copied.len() == m.sources.len(),
        m.written == m.copied.flatten(),
{
}

/// Merging two sources `a` and `b`: the target holds `a`'s bytes and then `b`'s,
/// and nothing else.
pub proof fn lemma_merged_two(m: MergeView)
    requires
        m.wf(),
        m.phase == MergePhase::Merged,
        m.sources.len() == 2,
    ensures
        m.written.len() == m.copied[0].len() + m.copied[1].len(),
        m.written.subrange(0, m.copied[0].len() as int) == m.copied[0],
        m.written.subrange(m.copied[0].len() as int, m.written.len() as int) == m.copied[1],
{
    let c = m.copied;
    assert(c == seq![c[0]].push(c[1]));
    seq![c[0]].lemma_flatten_push(c[1]);
    Seq::<Seq<u8>>::empty().lemma_flatten_push(c[0]);
    assert(Seq::<Seq<u8>>::empty().push(c[0]) == seq![c[0]]);
    assert(Seq::<Seq<u8>>::empty().flatten() == Seq::<u8>::empty());
    assert(seq![c[0]].flatten() =~= c[0]);
    assert(m.written.subrange(0, c[0].len() as int) =~= c[0]);
    assert(m.written.subrange(c[0].len() as int, m.written.len() as int) =~= c[1]);
}


impl Merger {
    /// A merge of `sources`, in that order. First ask whether the target exists,
    /// and report it with `target_checked`.
    pub fn new(sources: Vec<String>) -> (r: Merger)
        ensures
            r@.wf(),
            r@.sources == sources@.map_values(|s: String| s@),
            r@.phase == MergePhase::CheckingTarget,
            r@.written.len() == 0,
    {
        let r = Merger {
            sources,
            phase: MergePhase::CheckingTarget,
            current: 0,
            copied: Ghost(Seq::empty()),
            written: Ghost(Seq::empty()),
            pending: Ghost(Seq::empty()),
        };
        assert(Seq::<Seq<u8>>::empty().flatten() =~= Seq::<u8>::empty());
        r
    }

    /// The phase the merge is in.
    pub fn phase(&self) -> (r: MergePhase)
        ensures
            r == self@.phase,
    {
        self.phase
    }

    /// A merge that exists refuses; otherwise the target is to be created.
    pub fn target_checked(&mut self, exists: bool) -> (a: MergeAction)
        requires
            old(self)@.wf(),
            old(self)@.phase == MergePhase::CheckingTarget,
        ensures
            final(self)@.wf(),
            final(self)@.sources == old(self)@.sources,
            final(self)@.written == old(self)@.written,
            exists ==> final(self)@.phase == MergePhase::Failed && a == (MergeAction::Finish {
                result: Err(MergeError::TargetAlreadyExists),
            }),
            !exists ==> final(self)@.phase == MergePhase::CreatingTarget && a
                == MergeAction::CreateTarget,
    {
        if exists {
            self.phase = MergePhase::Failed;
            MergeAction::Finish { result: Err(MergeError::TargetAlreadyExists) }
        } else {
            self.phase = MergePhase::CreatingTarget;
            MergeAction::CreateTarget
        }
    }

    /// Moves on to the source at `next`, or ends the merge where there is none.
    fn open_next(&mut self, next: usize) -> (a: MergeAction)
        requires
            old(self)@.written == old(self)@.copied.flatten(),
            old(self)@.copied.len() == next <= old(self)@.sources.len(),
        ensures
            final(self)@.wf(),
            final(self)@.sources == old(self)@.sources,
            final(self)@.written == old(self)@.written,
            final(self)@.copied == old(self)@.copied,
            next == old(self)@.sources.len() ==> final(self)@.phase == MergePhase::Merged
                && a == (MergeAction::Finish { result: Ok(()) }),
            next < old(self)@.sources.len() ==> (a matches MergeAction::OpenSource { path }
                && path@ == old(self)@.sources[next as int]
                && final(self)@.phase == MergePhase::Opening
                && final(self)@.current == next),
    {
        if next == self.sources.len() {
            self.phase = MergePhase::Merged;
            MergeAction::Finish { result: Ok(()) }
        } else {
            self.phase = MergePhase::Opening;
            self.current = next;
            let path = self.sources[next].clone();
            MergeAction::OpenSource { path }
        }
    }

    /// After creating the target: on failure the merge ends; otherwise the first
    /// source is to be opened, or the merge ends in success where there is none.
    pub fn target_created(&mut self, ok: bool) -> (a: MergeAction)
        requires
            old(self)@.wf(),
            old(self)@.phase == MergePhase::CreatingTarget,
        ensures
            final(self)@.wf(),
            final(self)@.sources == old(self)@.sources,
            final(self)@.written == old(self)@.written,
            !ok ==> final(self)@.phase == MergePhase::Failed && a == (MergeAction::Finish {
                result: Err(MergeError::IoFailure),
            }),
            ok && old(self)@.sources.len() == 0 ==> final(self)@.phase == MergePhase::Merged && a
                == (MergeAction::Finish { result: Ok(()) }),
            ok && old(self)@.sources.len() > 0 ==> (a matches MergeAction::OpenSource { path }
                && path@ == old(self)@.sources[0]
                && final(self)@.phase == MergePhase::Opening
                && final(self)@.current == 0),
    {
        if !ok {
            self.phase = MergePhase::Failed;
            return MergeAction::Finish { result: Err(MergeError::IoFailure) };
        }
        self.open_next(0)
    }

    /// After opening the current source: a missing source ends the merge, with
    /// what was written kept; otherwise reading starts.
    pub fn source_opened(&mut self, found: bool) -> (a: MergeAction)
        requires
            old(self)@.wf(),
            old(self)@.phase == MergePhase::Opening,
        ensures
            final(self)@.wf(),
            final(self)@.sources == old(self)@.sources,
            final(self)@.written == old(self)@.written,
            final(self)@.current == old(self)@.current,
            !found ==> (a matches MergeAction::Finish { result: Err(MergeError::SourceNotFound { path }) }
                && path@ == old(self)@.sources[old(self)@.current]
                && final(self)@.phase == MergePhase::Failed),
            found ==> final(self)@.phase == MergePhase::Reading && a == MergeAction::ReadChunk
                && final(self)@.copied == old(self)@.copied.push(Seq::empty()),
    {
        if !found {
            self.phase = MergePhase::Failed;
            let path = self.sources[self.current].clone();
            return MergeAction::Finish { result: Err(MergeError::SourceNotFound { path }) };
        }
        proof {
            self.copied@.lemma_flatten_push(Seq::empty());
            assert(self.copied@.flatten() + Seq::<u8>::empty() =~= self.copied@.flatten());
        }
        self.copied = Ghost(self.copied@.push(Seq::empty()));
        self.phase = MergePhase::Reading;
        MergeAction::ReadChunk
    }

    /// After a read from the current source: no bytes mean the source is done,
    /// and the next one is to be opened (or the merge ends in success); the
    /// bytes read are to be written.
    pub fn chunk_read(&mut self, bytes: Vec<u8>) -> (a: MergeAction)
        requires
            old(self)@.wf(),
            old(self)@.phase == MergePhase::Reading,
        ensures
            final(self)@.wf(),
            final(self)@.sources == old(self)@.sources,
            final(self)@.written == old(self)@.written,
            final(self)@.copied == old(self)@.copied,
            bytes@.len() > 0 ==> final(self)@.phase == MergePhase::Writing
                && final(self)@.pending == bytes@
                && a == (MergeAction::WriteChunk { bytes }),
            bytes@.len() == 0 && old(self)@.current + 1 == old(self)@.sources.len()
                ==> final(self)@.phase == MergePhase::Merged && a == (MergeAction::Finish {
                result: Ok(()),
            }),
            bytes@.len() == 0 && old(self)@.current + 1 < old(self)@.sources.len()
                ==> (a matches MergeAction::OpenSource { path }
                && path@ == old(self)@.sources[old(self)@.current + 1]
                && final(self)@.phase == MergePhase::Opening
                && final(self)@.current == old(self)@.current + 1),
    {
        if bytes.len() == 0 {
            let n = self.sources.len();
            assert(self.current < n);
            let next = self.current + 1;
            return self.open_next(next);
        }
        self.pending = Ghost(bytes@);
        self.phase = MergePhase::Writing;
        MergeAction::WriteChunk { bytes }
    }

    /// A read from the current source failed: the merge ends, with what was
    /// written kept.
    pub fn read_failed(&mut self) -> (a: MergeAction)
        requires
            old(self)@.wf(),
            old(self)@.phase == MergePhase::Reading,
        ensures
            final(self)@.wf(),
            final(self)@.sources == old(self)@.sources,
            final(self)@.written == old(self)@.written,
            final(self)@.phase == MergePhase::Failed,
            a == (MergeAction::Finish { result: Err(MergeError::IoFailure) }),
    {
        self.phase = MergePhase::Failed;
        MergeAction::Finish { result: Err(MergeError::IoFailure) }
    }

    /// After writing the pending bytes: on success they count as written and
    /// the next read follows; on failure the merge ends.
    pub fn chunk_written(&mut self, ok: bool) -> (a: MergeAction)
        requires
            old(self)@.wf(),
            old(self)@.phase == MergePhase::Writing,
        ensures
            final(self)@.wf(),
            final(self)@.sources == old(self)@.sources,
            !ok ==> final(self)@.phase == MergePhase::Failed
                && final(self)@.written == old(self)@.written
                && a == (MergeAction::Finish { result: Err(MergeError::IoFailure) }),
            ok ==> final(self)@.phase == MergePhase::Reading && a == MergeAction::ReadChunk
                && final(self)@.written == old(self)@.written + old(self)@.pending
                && final(self)@.current == old(self)@.current
                && final(self)@.copied == old(self)@.copied.update(
                old(self)@.current,
                old(self)@.copied.last() + old(self)@.pending,
            ),
    {
        if !ok {
            self.phase = MergePhase::Failed;
            return MergeAction::Finish { result: Err(MergeError::IoFailure) };
        }
        proof {
            let c = self.copied@;
            let p = self.pending@;
            let d = c.drop_last();
            assert(c =~= d.push(c.last()));
            d.lemma_flatten_push(c.last());
            d.lemma_flatten_push(c.last() + p);
            assert(c.update(self.current as int, c.last() + p) =~= d.push(c.last() + p));
            assert(d.flatten() + (c.last() + p) =~= d.flatten() + c.last() + p);
        }
        self.copied = Ghost(self.copied@.update(self.current as int, self.copied@.last() + self.pending@));
        self.written = Ghost(self.written@ + self.pending@);
        self.phase = MergePhase::Reading;
        MergeAction::ReadChunk
    }
}

} // verus!
