use binmerge::sheet::{BinFile, Diagnostic, Index, SheetReader, Track};

/// Reads `lines` as a sheet in `/discs`, where the files in `present` exist with the given sizes.
fn read(lines: &[&str], present: &[(&str, u64)]) -> (Vec<BinFile>, Vec<Diagnostic>) {
    let mut reader = SheetReader::new();
    for line in lines {
        if let Some(name) = reader.feed_line(line) {
            let path = format!("/discs/{}", name);
            let size = present.iter().find(|(n, _)| *n == name).map(|(_, s)| *s);
            reader.add_file(path, size);
        }
    }
    reader.finish()
}

#[test]
fn one_file_one_track_two_indexes() {
    let (files, diags) = read(
        &[
            "FILE \"game.bin\" BINARY",
            "  TRACK 01 AUDIO",
            "    INDEX 00 00:00:00",
            "    INDEX 01 00:02:00",
        ],
        &[("game.bin", 352800)],
    );
    assert!(diags.is_empty());
    assert_eq!(files.len(), 1);
    assert_eq!(files[0].filename, "/discs/game.bin");
    assert_eq!(files[0].size, Some(352800));
    assert_eq!(files[0].tracks.len(), 1);
    let track = &files[0].tracks[0];
    assert_eq!(track.num, 1);
    assert_eq!(track.track_type, "AUDIO");
    assert_eq!(track.indexes.len(), 2);
    assert_eq!(track.indexes[0].id, 0);
    assert_eq!(track.indexes[0].stamp, "00:00:00");
    assert_eq!(track.indexes[0].file_offset, 0);
    assert_eq!(track.indexes[1].id, 1);
    assert_eq!(track.indexes[1].file_offset, 150);
    assert!(track.indexes[0].file_offset <= track.indexes[1].file_offset);
}

#[test]
fn missing_file_is_kept_and_reading_goes_on() {
    let (files, diags) = read(
        &[
            "FILE \"gone.bin\" BINARY",
            "  TRACK 01 MODE1/2352",
            "    INDEX 01 00:00:00",
            "FILE \"here.bin\" BINARY",
            "  TRACK 02 AUDIO",
            "    INDEX 01 00:00:10",
        ],
        &[("here.bin", 2352)],
    );
    assert_eq!(
        diags,
        vec![Diagnostic::BinFileNotFound { path: "/discs/gone.bin".to_string() }]
    );
    assert_eq!(files.len(), 2);
    assert_eq!(files[0].filename, "/discs/gone.bin");
    assert_eq!(files[0].size, None);
    assert_eq!(files[0].tracks.len(), 1);
    assert_eq!(files[1].size, Some(2352));
    assert_eq!(files[1].tracks.len(), 1);
    assert_eq!(files[1].tracks[0].num, 2);
    assert_eq!(files[1].tracks[0].indexes.len(), 1);
    assert_eq!(files[1].tracks[0].indexes[0].file_offset, 10);
}

#[test]
fn index_before_track_is_orphan() {
    let (files, diags) = read(
        &[
            "FILE \"a.bin\" BINARY",
            "    INDEX 01 00:00:00",
            "  TRACK 01 AUDIO",
            "    INDEX 01 00:00:05",
        ],
        &[("a.bin", 100)],
    );
    assert_eq!(diags, vec![Diagnostic::OrphanIndex { number: 1 }]);
    assert_eq!(files.len(), 1);
    assert_eq!(files[0].tracks.len(), 1);
    assert_eq!(files[0].tracks[0].indexes.len(), 1);
    assert_eq!(files[0].tracks[0].indexes[0].file_offset, 5);
}

#[test]
fn index_before_any_file_is_orphan() {
    let (files, diags) = read(&["INDEX 02 00:00:00"], &[]);
    assert!(files.is_empty());
    assert_eq!(diags, vec![Diagnostic::OrphanIndex { number: 2 }]);
}

#[test]
fn track_before_file_is_orphan() {
    let (files, diags) = read(
        &["TRACK 01 AUDIO", "FILE \"a.bin\" BINARY", "TRACK 02 AUDIO"],
        &[("a.bin", 1)],
    );
    assert_eq!(diags, vec![Diagnostic::OrphanTrack { number: 1 }]);
    assert_eq!(files.len(), 1);
    assert_eq!(files[0].tracks.len(), 1);
    assert_eq!(files[0].tracks[0].num, 2);
}

#[test]
fn decreasing_index_is_flagged() {
    let (files, diags) = read(
        &[
            "FILE \"a.bin\" BINARY",
            "TRACK 01 AUDIO",
            "INDEX 01 00:02:00",
            "INDEX 02 00:01:00",
        ],
        &[("a.bin", 1)],
    );
    assert_eq!(diags, vec![Diagnostic::IndexOutOfOrder { number: 2 }]);
    assert_eq!(files[0].tracks[0].indexes.len(), 1);
    assert_eq!(files[0].tracks[0].indexes[0].file_offset, 150);
}

#[test]
fn equal_index_offsets_are_kept() {
    let (files, diags) = read(
        &["FILE \"a.bin\" BINARY", "TRACK 01 AUDIO", "INDEX 00 00:01:00", "INDEX 01 00:01:00"],
        &[("a.bin", 1)],
    );
    assert!(diags.is_empty());
    assert_eq!(files[0].tracks[0].indexes.len(), 2);
}

#[test]
fn oversized_timestamp_is_flagged() {
    let (files, diags) = read(
        &["FILE \"a.bin\" BINARY", "TRACK 01 AUDIO", "INDEX 01 99999999:00:00"],
        &[("a.bin", 1)],
    );
    assert_eq!(
        diags,
        vec![Diagnostic::MalformedTimestamp { stamp: "99999999:00:00".to_string() }]
    );
    assert!(files[0].tracks[0].indexes.is_empty());
}

#[test]
fn tracks_go_to_the_last_file() {
    let (files, diags) = read(
        &[
            "FILE \"a.bin\" BINARY",
            "TRACK 01 MODE1/2352",
            "INDEX 01 00:00:00",
            "FILE \"b.bin\" BINARY",
            "TRACK 02 AUDIO",
            "INDEX 00 00:00:00",
            "INDEX 01 00:02:00",
            "TRACK 03 AUDIO",
            "INDEX 01 01:00:00",
        ],
        &[("a.bin", 1), ("b.bin", 2)],
    );
    assert!(diags.is_empty());
    assert_eq!(files[0].tracks.len(), 1);
    assert_eq!(files[1].tracks.len(), 2);
    assert_eq!(files[1].tracks[1].num, 3);
    assert_eq!(files[1].tracks[1].indexes[0].file_offset, 4500);
}

#[test]
fn reader_reports_progress() {
    let mut reader = SheetReader::new();
    assert_eq!(reader.feed_line("FILE \"a.bin\" BINARY"), Some("a.bin".to_string()));
    assert!(reader.files().is_empty());
    reader.add_file("/x/a.bin".to_string(), Some(5));
    assert_eq!(reader.feed_line("REM COMMENT"), None);
    assert_eq!(reader.feed_line("TRACK 01 AUDIO"), None);
    assert_eq!(reader.files().len(), 1);
    assert_eq!(reader.files()[0].tracks.len(), 1);
    assert!(reader.diagnostics().is_empty());
}

#[test]
fn constructors_keep_their_values() {
    let i = Index::new(1, "00:00:05".to_string(), 5);
    assert_eq!((i.id, i.stamp.as_str(), i.file_offset), (1, "00:00:05", 5));
    let t = Track::new(7, "AUDIO".to_string());
    assert_eq!(t.num, 7);
    assert_eq!(t.track_type, "AUDIO");
    assert!(t.indexes.is_empty());
    assert_eq!(t.sectors, None);
    assert_eq!(t.file_offset, None);
    let f = BinFile::new("/d/a.bin".to_string(), None);
    assert_eq!(f.filename, "/d/a.bin");
    assert_eq!(f.size, None);
    assert!(f.tracks.is_empty());
}
