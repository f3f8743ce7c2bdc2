use binmerge::directive::{classify_line, Directive};

#[test]
fn reads_file_directive() {
    assert_eq!(
        classify_line("FILE \"Game (Track 1).bin\" BINARY"),
        Directive::File { name: "Game (Track 1).bin".to_string() }
    );
}

#[test]
fn file_name_is_shortest() {
    assert_eq!(
        classify_line("FILE \"a\" BINARY\" BINARY"),
        Directive::File { name: "a".to_string() }
    );
}

#[test]
fn file_with_other_type_is_no_directive() {
    assert_eq!(classify_line("FILE \"a.wav\" WAVE"), Directive::Other);
}

#[test]
fn reads_track_directive() {
    assert_eq!(
        classify_line("  TRACK 01 MODE2/2352"),
        Directive::Track { number: 1, mode: "MODE2/2352".to_string() }
    );
}

#[test]
fn track_mode_stops_at_whitespace() {
    assert_eq!(
        classify_line("TRACK 12 AUDIO extra"),
        Directive::Track { number: 12, mode: "AUDIO".to_string() }
    );
}

#[test]
fn track_mode_may_be_empty() {
    assert_eq!(
        classify_line("TRACK 3 "),
        Directive::Track { number: 3, mode: String::new() }
    );
}

#[test]
fn track_without_space_is_no_directive() {
    assert_eq!(classify_line("TRACK 03"), Directive::Other);
}

#[test]
fn track_number_past_32_bits_is_no_directive() {
    assert_eq!(classify_line("TRACK 4294967296 AUDIO"), Directive::Other);
}

#[test]
fn reads_index_directive() {
    assert_eq!(
        classify_line("    INDEX 01 00:02:00"),
        Directive::Index { number: 1, stamp: "00:02:00".to_string() }
    );
}

#[test]
fn index_stamp_stops_after_frames() {
    assert_eq!(
        classify_line("INDEX 00 61:06:08 trailing"),
        Directive::Index { number: 0, stamp: "61:06:08".to_string() }
    );
}

#[test]
fn index_with_short_stamp_is_no_directive() {
    assert_eq!(classify_line("INDEX 01 00:02"), Directive::Other);
}

#[test]
fn file_comes_before_track() {
    assert_eq!(
        classify_line("TRACK 01 AUDIO FILE \"x.bin\" BINARY"),
        Directive::File { name: "x.bin".to_string() }
    );
}

#[test]
fn other_lines_are_ignored() {
    assert_eq!(classify_line("REM GENRE Game"), Directive::Other);
    assert_eq!(classify_line("    PREGAP 00:02:00"), Directive::Other);
    assert_eq!(classify_line(""), Directive::Other);
}
