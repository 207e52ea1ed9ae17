use lyric_bar::{
    format_duration, get_status_text, parse_track_id, status_line, Lyrics, PlaybackStatus, Session,
};

#[test]
fn clock_pads_to_two_digits() {
    assert_eq!(format_duration(0, 0), "00:00/00:00");
    assert_eq!(format_duration(65_999, 3_600_000), "01:05/60:00");
    assert_eq!(format_duration(9_000, 600_000), "00:09/10:00");
}

#[test]
fn clock_minutes_grow_past_two_digits() {
    assert_eq!(format_duration(6_000_000, 59_999), "100:00/00:59");
    assert_eq!(format_duration(u64::MAX, 1), "307445734561825:51/00:00");
}

#[test]
fn track_id_is_the_number_after_the_prefix() {
    assert_eq!(parse_track_id("/org/mpd/Tracks/1234"), Some("1234".to_string()));
    assert_eq!(parse_track_id("x/org/mpd/Tracks/42abc/7"), Some("42".to_string()));
    assert_eq!(
        parse_track_id("/org/mpd/Tracks/x/org/mpd/Tracks/9"),
        Some("9".to_string())
    );
}

#[test]
fn track_id_missing() {
    assert_eq!(parse_track_id(""), None);
    assert_eq!(parse_track_id("/org/mpd/Tracks/"), None);
    assert_eq!(parse_track_id("/org/mpd/tracks/12"), None);
    assert_eq!(parse_track_id("/org/mpris/MediaPlayer2/TrackList/NoTrack"), None);
}

#[test]
fn status_symbols() {
    assert_eq!(get_status_text(PlaybackStatus::Paused), '\u{25b6}');
    assert_eq!(get_status_text(PlaybackStatus::Playing), '\u{f8e3}');
    assert_eq!(get_status_text(PlaybackStatus::Stopped), '\u{f04d}');
}

#[test]
fn full_status_line() {
    let lyrics = Lyrics::from_transcript("[00:01.00]hello\n[00:02.00] \n");
    let trans = Lyrics::from_transcript("[00:01.00]bonjour");
    let line = status_line(
        Some(PlaybackStatus::Playing),
        Some("Song"),
        2_500,
        Some(180_000),
        Some(&lyrics),
        Some(&trans),
    );
    assert_eq!(line, "\u{f8e3} Song (00:02/03:00) - hello [bonjour]");
}

#[test]
fn status_line_leaves_out_hidden_and_empty_parts() {
    let lyrics = Lyrics::from_transcript("[00:05.00]later");
    let empty = Lyrics::default();
    let line = status_line(None, Some("T"), 1_000, None, Some(&lyrics), Some(&empty));
    assert_eq!(line, "T");
    let line = status_line(Some(PlaybackStatus::Paused), None, 6_000, None, Some(&lyrics), None);
    assert_eq!(line, "\u{25b6}  - later");
    assert_eq!(status_line(None, None, 0, None, None, None), "");
}

#[test]
fn session_fetches_on_new_track_or_missing_lyrics() {
    let mut session = Session::new();
    assert!(session.needs_fetch(&"1".to_string()));
    session.track_id = "1".to_string();
    assert!(session.needs_fetch(&"1".to_string()));
    session.lyrics = Lyrics::from_transcript("[00:01.00]a");
    assert!(!session.needs_fetch(&"1".to_string()));
    assert!(session.needs_fetch(&"2".to_string()));
}
