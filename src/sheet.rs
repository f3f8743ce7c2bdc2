use vstd::prelude::*;
use crate::timestamp::{is_timestamp, timestamp_offset, cuestamp_to_sectors};
use crate::directive::{Directive, DirectiveModel, classify, classify_line};

verus! {

/// One `INDEX` entry of a track.
#[derive(Debug)]
pub struct Index {
    pub id: u32,
    /// The timestamp as the sheet wrote it.
    pub stamp: String,
    /// The sector within the file at which the index stands.
    pub file_offset: u32,
}

/// One `TRACK` entry of a file.
#[derive(Debug)]
pub struct Track {
    pub num: u32,
    pub indexes: Vec<Index>,
    /// The mode word, such as `AUDIO` or `MODE2/2352`.
    pub track_type: String,
    pub sectors: Option<u32>,
    pub file_offset: Option<u32>,
}

/// One `FILE` entry of a sheet: a binary file, with its tracks.
#[derive(Debug)]
pub struct BinFile {
    /// The path of the file, resolved against the sheet's directory.
    pub filename: String,
    pub tracks: Vec<Track>,
    /// The size in bytes, or `None` where the file was not found.
    pub size: Option<u64>,
}

/// A problem met on one line of a sheet; reading goes on past it.
#[derive(Debug, PartialEq, Eq)]
pub enum Diagnostic {
    /// A `FILE` names a file that does not exist; its entry is kept, without a size.
    BinFileNotFound { path: String },
    /// A `TRACK` stands before any `FILE`; the line is skipped.
    OrphanTrack { number: u32 },
    /// An `INDEX` stands before any `TRACK` of the current file; the line is skipped.
    OrphanIndex { number: u32 },
    /// An `INDEX` timestamp whose offset does not fit in 32 bits; the line is skipped.
    MalformedTimestamp { stamp: String },
    /// An `INDEX` whose offset lies before the previous index of its track; the line is skipped.
    IndexOutOfOrder { number: u32 },
}

pub ghost struct IndexView {
    pub id: u32,
    pub stamp: Seq<char>,
    pub file_offset: u32,
}

pub ghost struct TrackView {
    pub num: u32,
    pub track_type: Seq<char>,
    pub indexes: Seq<IndexView>,
    pub sectors: Option<u32>,
    pub file_offset: Option<u32>,
}

pub ghost struct FileView {
    pub filename: Seq<char>,
    pub size: Option<u64>,
    pub tracks: Seq<TrackView>,
}

pub ghost enum DiagnosticView {
    BinFileNotFound(Seq<char>),
    OrphanTrack(u32),
    OrphanIndex(u32),
    MalformedTimestamp(Seq<char>),
    IndexOutOfOrder(u32),
}

/// The files of a sheet read so far, and the problems met.
pub ghost struct SheetView {
    pub files: Seq<FileView>,
    pub diagnostics: Seq<DiagnosticView>,
}

impl View for Index {
    type V = IndexView;

    open spec fn view(&self) -> IndexView {
        IndexView { id: self.id, stamp: self.stamp@, file_offset: self.file_offset }
    }
}

impl View for Track {
    type V = TrackView;

    open spec fn view(&self) -> TrackView {
        TrackView {
            num: self.num,
            track_type: self.track_type@,
            indexes: self.indexes@.map_values(|i: Index| i@),
            sectors: self.sectors,
            file_offset: self.file_offset,
        }
    }
}

impl View for BinFile {
    type V = FileView;

    open spec fn view(&self) -> FileView {
        FileView {
            filename: self.filename@,
            size: self.size,
            tracks: self.tracks@.map_values(|t: Track| t@),
        }
    }
}

impl View for Diagnostic {
    type V = DiagnosticView;

    open spec fn view(&self) -> DiagnosticView {
        match self {
            Diagnostic::BinFileNotFound { path } => DiagnosticView::BinFileNotFound(path@),
            Diagnostic::OrphanTrack { number } => DiagnosticView::OrphanTrack(*number),
            Diagnostic::OrphanIndex { number } => DiagnosticView::OrphanIndex(*number),
            Diagnostic::MalformedTimestamp { stamp } => DiagnosticView::MalformedTimestamp(stamp@),
            Diagnostic::IndexOutOfOrder { number } => DiagnosticView::IndexOutOfOrder(*number),
        }
    }
}

impl Index {
    pub fn new(id: u32, stamp: String, file_offset: u32) -> (r: Index)
        ensures
            r@ == (IndexView { id, stamp: stamp@, file_offset }),
    {
        Index { id, stamp, file_offset }
    }
}

impl Track {
    pub fn new(num: u32, track_type: String) -> (r: Track)
        ensures
            r@ == (TrackView {
                num,
                track_type: track_type@,
                indexes: Seq::empty(),
                sectors: None,
                file_offset: None,
            }),
    {
        let r = Track { num, indexes: Vec::new(), track_type, sectors: None, file_offset: None };
        assert(r@.indexes =~= Seq::empty());
        r
    }
}

impl BinFile {
    /// A file entry without tracks; `size` is `None` where the file was not found.
    pub fn new(filename: String, size: Option<u64>) -> (r: BinFile)
        ensures
            r@ == (FileView { filename: filename@, size, tracks: Seq::empty() }),
    {
        let r = BinFile { filename, tracks: Vec::new(), size };
        assert(r@.tracks =~= Seq::empty());
        r
    }
}


/// Within each track, index offsets never decrease in declaration order.
pub open spec fn track_ordered(t: TrackView) -> bool {
    forall|a: int, b: int|
        0 <= a < b < t.indexes.len() ==> t.indexes[a].file_offset <= t.indexes[b].file_offset
}

pub open spec fn sheet_ordered(v: SheetView) -> bool {
    forall|f: int, t: int|
        0 <= f < v.files.len() && 0 <= t < v.files[f].tracks.len() ==> track_ordered(
            #[trigger] v.files[f].tracks[t],
        )
}

/// A `FILE` line whose resolved path is `path`; `size` is `None` where the file is missing.
pub open spec fn after_file(v: SheetView, path: Seq<char>, size: Option<u64>) -> SheetView {
    SheetView {
        files: v.files.push(FileView { filename: path, size, tracks: Seq::empty() }),
        diagnostics: if size is None {
            v.diagnostics.push(DiagnosticView::BinFileNotFound(path))
        } else {
            v.diagnostics
        },
    }
}

/// The sheet with `t` in place of the last track of the last file.
pub open spec fn with_last_track(v: SheetView, t: TrackView) -> SheetView {
    let f = v.files.last();
    SheetView {
        files: v.files.update(
            v.files.len() - 1,
            FileView { filename: f.filename, size: f.size, tracks: f.tracks.update(f.tracks.len() - 1, t) },
        ),
        diagnostics: v.diagnostics,
    }
}

pub open spec fn with_diagnostic(v: SheetView, d: DiagnosticView) -> SheetView {
    SheetView { files: v.files, diagnostics: v.diagnostics.push(d) }
}

/// A `TRACK` line: a new track of the last file, or a diagnostic where there is no file.
pub open spec fn after_track(v: SheetView, number: u32, mode: Seq<char>) -> SheetView {
    if v.files.len() == 0 {
        with_diagnostic(v, DiagnosticView::OrphanTrack(number))
    } else {
        let f = v.files.last();
        let t = TrackView {
            num: number,
            track_type: mode,
            indexes: Seq::empty(),
            sectors: None,
            file_offset: None,
        };
        SheetView {
            files: v.files.update(
                v.files.len() - 1,
                FileView { filename: f.filename, size: f.size, tracks: f.tracks.push(t) },
            ),
            diagnostics: v.diagnostics,
        }
    }
}

/// An `INDEX` line: a new index of the last track of the last file, or a diagnostic
/// where there is no such track, the timestamp does not convert, or the offset
/// lies before the track's previous index.
pub open spec fn after_index(v: SheetView, number: u32, stamp: Seq<char>) -> SheetView {
    if v.files.len() == 0 || v.files.last().tracks.len() == 0 {
        with_diagnostic(v, DiagnosticView::OrphanIndex(number))
    } else if !is_timestamp(stamp) || timestamp_offset(stamp) > u32::MAX {
        with_diagnostic(v, DiagnosticView::MalformedTimestamp(stamp))
    } else {
        let t = v.files.last().tracks.last();
        let offset = timestamp_offset(stamp) as u32;
        if t.indexes.len() > 0 && t.indexes.last().file_offset > offset {
            with_diagnostic(v, DiagnosticView::IndexOutOfOrder(number))
        } else {
            with_last_track(
                v,
                TrackView {
                    num: t.num,
                    track_type: t.track_type,
                    indexes: t.indexes.push(IndexView { id: number, stamp, file_offset: offset }),
                    sectors: t.sectors,
                    file_offset: t.file_offset,
                },
            )
        }
    }
}

/// Reading one line: what it does to the sheet, with `path` and `size` standing
/// for what a `FILE` line resolves to.
pub open spec fn after_line(v: SheetView, line: Seq<char>, path: Seq<char>, size: Option<u64>) -> SheetView {
    match classify(line) {
        DirectiveModel::File(_) => after_file(v, path, size),
        DirectiveModel::Track(n, m) => after_track(v, n, m),
        DirectiveModel::Index(n, st) => after_index(v, n, st),
        DirectiveModel::Other => v,
    }
}

/// Reading any line of a sheet keeps the index offsets of every track in order.
pub proof fn lemma_line_keeps_order(v: SheetView, line: Seq<char>, path: Seq<char>, size: Option<u64>)
    requires
        sheet_ordered(v),
    ensures
        sheet_ordered(after_line(v, line, path, size)),
{
    match classify(line) {
        DirectiveModel::File(_) => lemma_file_keeps_order(v, path, size),
        DirectiveModel::Track(n, m) => lemma_track_keeps_order(v, n, m),
        DirectiveModel::Index(n, st) => lemma_index_keeps_order(v, n, st),
        DirectiveModel::Other => {},
    }
}

proof fn lemma_file_keeps_order(v: SheetView, path: Seq<char>, size: Option<u64>)
    requires
        sheet_ordered(v),
    ensures
        sheet_ordered(after_file(v, path, size)),
{
    let w = after_file(v, path, size);
    assert forall|f: int, t: int|
        0 <= f < w.files.len() && 0 <= t < w.files[f].tracks.len() implies track_ordered(
            #[trigger] w.files[f].tracks[t],
        ) by {
        assert(f < v.files.len());
        assert(w.files[f] == v.files[f]);
    }
}

proof fn lemma_track_keeps_order(v: SheetView, number: u32, mode: Seq<char>)
    requires
        sheet_ordered(v),
    ensures
        sheet_ordered(after_track(v, number, mode)),
{
    let w = after_track(v, number, mode);
    assert forall|f: int, t: int|
        0 <= f < w.files.len() && 0 <= t < w.files[f].tracks.len() implies track_ordered(
            #[trigger] w.files[f].tracks[t],
        ) by {
        if v.files.len() > 0 && f == v.files.len() - 1 && t == v.files.last().tracks.len() {
        } else {
            assert(w.files[f].tracks[t] == v.files[f].tracks[t]);
        }
    }
}

proof fn lemma_index_keeps_order(v: SheetView, number: u32, stamp: Seq<char>)
    requires
        sheet_ordered(v),
    ensures
        sheet_ordered(after_index(v, number, stamp)),
{
    let w = after_index(v, number, stamp);
    if v.files.len() == 0 || v.files.last().tracks.len() == 0 {
    } else if !is_timestamp(stamp) || timestamp_offset(stamp) > u32::MAX {
    } else {
        let lf = v.files.len() - 1;
        let lt = v.files.last().tracks.len() - 1;
        let t = v.files.last().tracks.last();
        assert(track_ordered(v.files[lf].tracks[lt]));
        assert forall|f: int, k: int|
            0 <= f < w.files.len() && 0 <= k < w.files[f].tracks.len() implies track_ordered(
                #[trigger] w.files[f].tracks[k],
            ) by {
            if f == lf && k == lt {
                let u = w.files[f].tracks[k];
                if !(t.indexes.len() > 0 && t.indexes.last().file_offset > timestamp_offset(stamp) as u32) {
                    assert forall|a: int, b: int|
                        0 <= a < b < u.indexes.len() implies u.indexes[a].file_offset
                        <= u.indexes[b].file_offset by {
                        if b == t.indexes.len() && a < b - 1 {
                            assert(t.indexes[a].file_offset <= t.indexes[b - 1].file_offset);
                        }
                    }
                }
            } else {
                assert(w.files[f].tracks[k] == v.files[f].tracks[k]);
            }
        }
    }
}


/// Reads a sheet one line at a time into its files, tracks and indexes, with the
/// problems met on the way. A `FILE` line is handed back to the caller, which
/// resolves and looks up the file and then calls `add_file`.
pub struct SheetReader {
    files: Vec<BinFile>,
    diagnostics: Vec<Diagnostic>,
}

impl View for SheetReader {
    type V = SheetView;

    closed spec fn view(&self) -> SheetView {
        SheetView {
            files: self.files@.map_values(|f: BinFile| f@),
            diagnostics: self.diagnostics@.map_values(|d: Diagnostic| d@),
        }
    }
}

impl SheetReader {
    /// The reader keeps every track's index offsets in order.
    pub open spec fn wf(&self) -> bool {
        sheet_ordered(self@)
    }

    pub fn new() -> (r: SheetReader)
        ensures
            r.wf(),
            r@.files.len() == 0,
            r@.diagnostics.len() == 0,
    {
        SheetReader { files: Vec::new(), diagnostics: Vec::new() }
    }

    proof fn lemma_view_push_diagnostic(old_r: SheetReader, new_r: SheetReader, d: Diagnostic)
        requires
            new_r.files@ == old_r.files@,
            new_r.diagnostics@ == old_r.diagnostics@.push(d),
        ensures
            new_r@ == with_diagnostic(old_r@, d@),
    {
        assert(new_r@.diagnostics =~= old_r@.diagnostics.push(d@));
        assert(new_r@.files =~= old_r@.files);
    }

    /// Opens a new file entry at `path`; `size` is `None` where the file is missing,
    /// which is also recorded as a diagnostic.
    pub fn add_file(&mut self, path: String, size: Option<u64>)
        requires
            old(self).wf(),
        ensures
            final(self).wf(),
            final(self)@ == after_file(old(self)@, path@, size),
    {
        let ghost v = self@;
        let missing = size.is_none();
        if missing {
            let p = path.clone();
            self.diagnostics.push(Diagnostic::BinFileNotFound { path: p });
        }
        let f = BinFile::new(path, size);
        self.files.push(f);
        proof {
            let w = after_file(v, path@, size);
            assert(self@.files =~= w.files);
            assert(self@.diagnostics =~= w.diagnostics);
            lemma_file_keeps_order(v, path@, size);
        }
    }

    /// Adds a track to the last file, or records an orphan track where there is none.
    pub fn add_track(&mut self, number: u32, mode: String)
        requires
            old(self).wf(),
        ensures
            final(self).wf(),
            final(self)@ == after_track(old(self)@, number, mode@),
    {
        let ghost v = self@;
        let ghost old_r = *self;
        proof {
            lemma_track_keeps_order(v, number, mode@);
        }
        if self.files.len() == 0 {
            self.diagnostics.push(Diagnostic::OrphanTrack { number });
            proof {
                Self::lemma_view_push_diagnostic(old_r, *self, Diagnostic::OrphanTrack { number });
            }
            return;
        }
        let mut f = self.files.pop().unwrap();
        let ghost f0 = f;
        let ghost mv = mode@;
        let t = Track::new(number, mode);
        f.tracks.push(t);
        assert(f@.tracks =~= f0@.tracks.push(t@));
        self.files.push(f);
        proof {
            let w = after_track(v, number, mv);
            assert(self@.files =~= w.files);
            assert(self@.diagnostics =~= w.diagnostics);
        }
    }

    /// Adds an index to the last track of the last file. Records an orphan index
    /// where there is no such track, a malformed timestamp where `stamp` does not
    /// convert, and an index out of order where its offset lies before the
    /// track's previous index.
    pub fn add_index(&mut self, number: u32, stamp: String)
        requires
            old(self).wf(),
        ensures
            final(self).wf(),
            final(self)@ == after_index(old(self)@, number, stamp@),
    {
        let ghost v = self@;
        let ghost old_r = *self;
        proof {
            lemma_index_keeps_order(v, number, stamp@);
        }
        let n = self.files.len();
        if n == 0 || self.files[n - 1].tracks.len() == 0 {
            self.diagnostics.push(Diagnostic::OrphanIndex { number });
            proof {
                Self::lemma_view_push_diagnostic(old_r, *self, Diagnostic::OrphanIndex { number });
            }
            return;
        }
        assert(self.files@[n - 1]@ == v.files.last());
        let offset = match cuestamp_to_sectors(stamp.as_str()) {
            Ok(o) => o,
            Err(_) => {
                let ghost d = Diagnostic::MalformedTimestamp { stamp };
                self.diagnostics.push(Diagnostic::MalformedTimestamp { stamp });
                proof {
                    Self::lemma_view_push_diagnostic(old_r, *self, d);
                }
                return;
            },
        };
        let tn = self.files[n - 1].tracks.len();
        let xn = self.files[n - 1].tracks[tn - 1].indexes.len();
        assert(self.files@[n - 1].tracks@[tn - 1]@ == v.files.last().tracks.last());
        if xn > 0 && self.files[n - 1].tracks[tn - 1].indexes[xn - 1].file_offset > offset {
            assert(self.files@[n - 1].tracks@[tn - 1].indexes@[xn - 1]@
                == v.files.last().tracks.last().indexes.last());
            self.diagnostics.push(Diagnostic::IndexOutOfOrder { number });
            proof {
                Self::lemma_view_push_diagnostic(old_r, *self, Diagnostic::IndexOutOfOrder { number });
            }
            return;
        }
        if xn > 0 {
            assert(self.files@[n - 1].tracks@[tn - 1].indexes@[xn - 1]@
                == v.files.last().tracks.last().indexes.last());
        }
        let mut f = self.files.pop().unwrap();
        let ghost f0 = f;
        let mut t = f.tracks.pop().unwrap();
        let ghost t0 = t;
        let ghost sv = stamp@;
        let x = Index::new(number, stamp, offset);
        t.indexes.push(x);
        assert(t@.indexes =~= t0@.indexes.push(x@));
        f.tracks.push(t);
        assert(f@.tracks =~= f0@.tracks.update(f0@.tracks.len() - 1, t@));
        self.files.push(f);
        proof {
            let w = after_index(v, number, sv);
            assert(self@.files =~= w.files);
            assert(self@.diagnostics =~= w.diagnostics);
        }
    }

    /// Reads one line of the sheet. A `FILE` line changes nothing and hands back
    /// the name it gives, for the caller to resolve and pass to `add_file`; a
    /// `TRACK` or `INDEX` line is applied, and any other line is ignored.
    pub fn feed_line(&mut self, line: &str) -> (r: Option<String>)
        requires
            old(self).wf(),
        ensures
            final(self).wf(),
            match classify(line@) {
                DirectiveModel::File(name) => r is Some && r->0@ == name && final(self)@ == old(self)@,
                DirectiveModel::Track(n, m) => r is None && final(self)@ == after_track(old(self)@, n, m),
                DirectiveModel::Index(n, st) => r is None && final(self)@ == after_index(old(self)@, n, st),
                DirectiveModel::Other => r is None && final(self)@ == old(self)@,
            },
    {
        match classify_line(line) {
            Directive::File { name } => Some(name),
            Directive::Track { number, mode } => {
                self.add_track(number, mode);
                None
            },
            Directive::Index { number, stamp } => {
                self.add_index(number, stamp);
                None
            },
            Directive::Other => None,
        }
    }

    /// The file entries read so far, in declaration order.
    pub fn files(&self) -> (r: &Vec<BinFile>)
        ensures
            r@.map_values(|f: BinFile| f@) == self@.files,
    {
        &self.files
    }

    /// The problems met so far, in the order of the lines.
    pub fn diagnostics(&self) -> (r: &Vec<Diagnostic>)
        ensures
            r@.map_values(|d: Diagnostic| d@) == self@.diagnostics,
    {
        &self.diagnostics
    }

    /// Ends the reading: the file entries and the problems met.
    pub fn finish(self) -> (r: (Vec<BinFile>, Vec<Diagnostic>))
        requires
            self.wf(),
        ensures
            r.0@.map_values(|f: BinFile| f@) == self@.files,
            r.1@.map_values(|d: Diagnostic| d@) == self@.diagnostics,
            sheet_ordered(self@),
    {
        (self.files, self.diagnostics)
    }
}

} // verus!
