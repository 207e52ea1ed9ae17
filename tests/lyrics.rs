use lyric_bar::Lyrics;

fn entries(track: &Lyrics) -> Vec<(u64, String)> {
    track.iter().cloned().collect()
}

fn some(s: &str) -> Option<String> {
    Some(s.to_string())
}

#[test]
fn basic_query_picks_last_entry_strictly_before() {
    let track = Lyrics::from_transcript("[00:01.000]A\n[00:02.000]B\n[00:03.500]C");
    assert_eq!(track.get_lyric(500), None);
    assert_eq!(track.get_lyric(1500), some("A"));
    assert_eq!(track.get_lyric(2000), some("A"));
    assert_eq!(track.get_lyric(2001), some("B"));
    assert_eq!(track.get_lyric(10000), some("C"));
}

#[test]
fn whitespace_query_skips_blank_entries() {
    let track = Lyrics::from_transcript("[00:01.000]A\n[00:02.000]   \n[00:03.000]B");
    assert_eq!(track.get_no_space_lyric(2500), some("A"));
    assert_eq!(track.get_no_space_lyric(3500), some("B"));
    assert_eq!(track.get_lyric(2500), some("   "));
}

#[test]
fn whitespace_query_skips_empty_and_unicode_blank() {
    let track = Lyrics::from_transcript("[00:01.00]A\n[00:02.00]\n[00:03.00]\u{3000}\t\n");
    assert_eq!(track.get_no_space_lyric(5000), some("A"));
    assert_eq!(track.get_lyric(5000), some("\u{3000}\t"));
    assert_eq!(track.get_no_space_lyric(1000), None);
}

#[test]
fn fraction_digits_scale_to_milliseconds() {
    let track = Lyrics::from_transcript("[01:02.5]x\n[01:02.50]y\n[01:02.500]z");
    let times: Vec<u64> = entries(&track).iter().map(|e| e.0).collect();
    assert_eq!(times, vec![62500, 62500, 62500]);
    let one = Lyrics::from_transcript("[00:00.05]a\n[00:00.005]b\n[10:59.9]c");
    assert_eq!(
        entries(&one),
        vec![(5, "b".to_string()), (50, "a".to_string()), (659900, "c".to_string())]
    );
}

#[test]
fn empty_transcript_gives_empty_track() {
    let track = Lyrics::from_transcript("");
    assert!(track.is_empty());
    assert_eq!(track.get_lyric(0), None);
    assert_eq!(track.get_lyric(u64::MAX), None);
    assert_eq!(track.get_no_space_lyric(123456), None);
}

#[test]
fn metadata_only_transcript_gives_empty_track() {
    let track = Lyrics::from_transcript("[ar:Someone]\n[ti:Some song]\nplain words\n[by:x]");
    assert!(track.is_empty());
    assert_eq!(track.get_lyric(100000), None);
}

#[test]
fn several_tags_share_the_text_after_the_last() {
    let track = Lyrics::from_transcript("[00:10.00][00:01.00][00:05.00]chorus");
    assert_eq!(
        entries(&track),
        vec![
            (1000, "chorus".to_string()),
            (5000, "chorus".to_string()),
            (10000, "chorus".to_string()),
        ]
    );
}

#[test]
fn tags_after_text_still_count() {
    let track = Lyrics::from_transcript("[00:01.00]one[00:02.00]two");
    assert_eq!(entries(&track), vec![(1000, "two".to_string()), (2000, "two".to_string())]);
}

#[test]
fn entries_sorted_and_equal_times_keep_order() {
    let track = Lyrics::from_transcript("[00:03.00]c\n[00:01.00]a1\n[00:02.00]b\n[00:01.0]a2\n[00:01.000]a3");
    assert_eq!(
        entries(&track),
        vec![
            (1000, "a1".to_string()),
            (1000, "a2".to_string()),
            (1000, "a3".to_string()),
            (2000, "b".to_string()),
            (3000, "c".to_string()),
        ]
    );
    assert_eq!(track.get_lyric(1001), some("a3"));
}

#[test]
fn malformed_tags_are_not_tags() {
    let track = Lyrics::from_transcript(
        "[0:01.00]a\n[00:1.00]b\n[00:01.]c\n[00:01.0000]d\n[00:01:00]e\n00:01.00]f\n[00:01.00g\n[0a:01.00]h",
    );
    assert!(track.is_empty());
}

#[test]
fn malformed_tag_before_a_good_one_stays_in_text() {
    let track = Lyrics::from_transcript("[00:01.0000][00:02.00]x");
    assert_eq!(entries(&track), vec![(2000, "x".to_string())]);
    let track = Lyrics::from_transcript("[00:02.00][ar:me]x");
    assert_eq!(entries(&track), vec![(2000, "[ar:me]x".to_string())]);
}

#[test]
fn crlf_line_endings_are_dropped() {
    let track = Lyrics::from_transcript("[00:01.00]A\r\n[00:02.00]B\r\n");
    assert_eq!(entries(&track), vec![(1000, "A".to_string()), (2000, "B".to_string())]);
}

#[test]
fn final_carriage_return_without_newline_is_kept() {
    let track = Lyrics::from_transcript("[00:01.00]A\r");
    assert_eq!(entries(&track), vec![(1000, "A\r".to_string())]);
}

#[test]
fn non_ascii_text_is_kept_whole() {
    let track = Lyrics::from_transcript("[00:01.00]歌词 ✓\n[99:59.999]終");
    assert_eq!(
        entries(&track),
        vec![(1000, "歌词 ✓".to_string()), (99 * 60000 + 59999, "終".to_string())]
    );
}

#[test]
fn default_track_is_empty() {
    let track = Lyrics::default();
    assert!(track.is_empty());
    assert_eq!(track.iter().count(), 0);
}

#[test]
fn variants_build_three_tracks() {
    let (a, b, c) = Lyrics::from_variants("[00:01.00]x", None, Some("[00:02.00]y"));
    assert_eq!(entries(&a), vec![(1000, "x".to_string())]);
    assert!(b.is_empty());
    assert_eq!(entries(&c), vec![(2000, "y".to_string())]);
}

#[test]
fn scan_reports_times_and_text_start() {
    let line: Vec<char> = "[00:01.00][00:02.5]x".chars().collect();
    assert_eq!(lyric_bar::tag::scan_tags(&line), (vec![1000, 2500], 19));
    let plain: Vec<char> = "no tags here".chars().collect();
    assert_eq!(lyric_bar::tag::scan_tags(&plain).0, Vec::<u64>::new());
}
