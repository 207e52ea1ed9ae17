//! The status line: a symbol for the player's state, the title, the clock, and the lines of
//! lyrics active at the playback position.
use vstd::prelude::*;
use vstd::string::*;
use crate::lyric::{active_lyric_line, chars_of, Lyrics};
use crate::tag::{digit_at, is_digit};

verus! {

pub open spec fn digit_char(d: int) -> char {
    seq!['0', '1', '2', '3', '4', '5', '6', '7', '8', '9'][d]
}

/// The decimal digits of `n`, without leading zeros.
pub open spec fn decimal_digits(n: nat) -> Seq<char>
    decreases n,
{
    if n < 10 {
        seq![digit_char(n as int)]
    } else {
        decimal_digits(n / 10) + seq![digit_char((n % 10) as int)]
    }
}

/// `n` in decimal, padded with a zero to at least two digits.
pub open spec fn two_digit_text(n: nat) -> Seq<char> {
    if n < 10 {
        seq!['0'] + decimal_digits(n)
    } else {
        decimal_digits(n)
    }
}

/// Whole minutes and the seconds past them, of a time in milliseconds: `mm:ss`.
pub open spec fn clock_text(ms: nat) -> Seq<char> {
    two_digit_text(ms / 1000 / 60) + seq![':'] + two_digit_text(ms / 1000 % 60)
}

fn digit_str(d: u64) -> (r: &'static str)
    requires
        d < 10,
    ensures
        r@ == seq![digit_char(d as int)],
{
    proof {
        reveal_strlit("0");
        reveal_strlit("1");
        reveal_strlit("2");
        reveal_strlit("3");
        reveal_strlit("4");
        reveal_strlit("5");
        reveal_strlit("6");
        reveal_strlit("7");
        reveal_strlit("8");
        reveal_strlit("9");
    }
    if d == 0 {
        "0"
    } else if d == 1 {
        "1"
    } else if d == 2 {
        "2"
    } else if d == 3 {
        "3"
    } else if d == 4 {
        "4"
    } else if d == 5 {
        "5"
    } else if d == 6 {
        "6"
    } else if d == 7 {
        "7"
    } else if d == 8 {
        "8"
    } else {
        "9"
    }
}

fn push_decimal(out: &mut String, n: u64)
    ensures
        final(out)@ == old(out)@ + decimal_digits(n as nat),
    decreases n,
{
    if n >= 10 {
        push_decimal(out, n / 10);
    }
    out.append(digit_str(n % 10));
    proof {
        if n >= 10 {
            assert(final(out)@ =~= old(out)@ + decimal_digits(n as nat));
        }
    }
}

fn push_two_digits(out: &mut String, n: u64)
    ensures
        final(out)@ == old(out)@ + two_digit_text(n as nat),
{
    if n < 10 {
        out.append(digit_str(0));
    }
    push_decimal(out, n);
    assert(final(out)@ =~= old(out)@ + two_digit_text(n as nat));
}

fn push_clock(out: &mut String, ms: u64)
    ensures
        final(out)@ == old(out)@ + clock_text(ms as nat),
{
    let secs = ms / 1000;
    push_two_digits(out, secs / 60);
    proof {
        reveal_strlit(":");
    }
    out.append(":");
    push_two_digits(out, secs % 60);
    assert(final(out)@ =~= old(out)@ + clock_text(ms as nat));
}

/// The playback position and the length of the track, both in milliseconds, as
/// `mm:ss/mm:ss`; minutes are not bounded, and take more digits where needed.
pub fn format_duration(position: u64, length: u64) -> (r: String)
    ensures
        r@ == clock_text(position as nat) + seq!['/'] + clock_text(length as nat),
{
    let mut out = String::new();
    push_clock(&mut out, position);
    proof {
        reveal_strlit("/");
    }
    out.append("/");
    push_clock(&mut out, length);
    out
}

/// `/org/mpd/Tracks/`, which comes before the number in a player's track identifier.
pub open spec fn track_prefix() -> Seq<char> {
    seq!['/', 'o', 'r', 'g', '/', 'm', 'p', 'd', '/', 'T', 'r', 'a', 'c', 'k', 's', '/']
}

/// The prefix, then a digit, start at `p`.
pub open spec fn id_at(s: Seq<char>, p: int) -> bool {
    &&& 0 <= p
    &&& p + 17 <= s.len()
    &&& s.subrange(p, p + 16) == track_prefix()
    &&& is_digit(s[p + 16])
}

/// The first index from `p` on where the prefix and a digit start.
pub open spec fn first_id_from(s: Seq<char>, p: int) -> Option<int>
    decreases s.len() - p,
{
    if p < 0 || p + 17 > s.len() {
        None
    } else if id_at(s, p) {
        Some(p)
    } else {
        first_id_from(s, p + 1)
    }
}

/// The end of the run of digits that starts at `i`.
pub open spec fn digit_run_end(s: Seq<char>, i: int) -> int
    decreases s.len() - i,
{
    if 0 <= i < s.len() && is_digit(s[i]) {
        digit_run_end(s, i + 1)
    } else {
        i
    }
}

/// The digits that follow the first occurrence of the prefix that a digit follows.
pub open spec fn track_id_of(s: Seq<char>) -> Option<Seq<char>> {
    match first_id_from(s, 0) {
        Some(p) => Some(s.subrange(p + 16, digit_run_end(s, p + 16))),
        None => None,
    }
}

fn prefix_at(cs: &Vec<char>, p: usize) -> (r: bool)
    requires
        p + 16 <= cs@.len(),
    ensures
        r == (cs@.subrange(p as int, p + 16) == track_prefix()),
{
    let prefix: Vec<char> = vec!['/', 'o', 'r', 'g', '/', 'm', 'p', 'd', '/', 'T', 'r', 'a', 'c', 'k', 's', '/'];
    assert(prefix@ =~= track_prefix());
    let n = cs.len();
    let mut k: usize = 0;
    while k < 16
        invariant
            k <= 16,
            n == cs@.len(),
            p + 16 <= n,
            prefix@.len() == 16,
            prefix@ == track_prefix(),
            forall|j: int| 0 <= j < k ==> cs@[p + j] == prefix@[j],
        decreases 16 - k,
    {
        if cs[p + k] != prefix[k] {
            assert(cs@.subrange(p as int, p + 16)[k as int] != track_prefix()[k as int]);
            return false;
        }
        k = k + 1;
    }
    assert(cs@.subrange(p as int, p + 16) =~= track_prefix());
    true
}

/// The number in a player's track identifier: the digits after the first `/org/mpd/Tracks/`
/// that a digit follows; `None` where there is no such place.
pub fn parse_track_id(track_id: &str) -> (r: Option<String>)
    ensures
        match r {
            Some(id) => track_id_of(track_id@) == Some(id@),
            None => track_id_of(track_id@) is None,
        },
{
    let cs = chars_of(track_id);
    let n = cs.len();
    let ghost s = track_id@;
    let mut p: usize = 0;
    while n >= 17 && p <= n - 17
        invariant
            s == track_id@,
            cs@ == s,
            n == s.len(),
            first_id_from(s, 0) == first_id_from(s, p as int),
        decreases n - p,
    {
        if prefix_at(&cs, p) && digit_at(&cs, p + 16) {
            let mut e: usize = p + 16;
            while e < n && digit_at(&cs, e)
                invariant
                    p + 16 <= e <= n,
                    s == track_id@,
                    cs@ == s,
                    n == s.len(),
                    digit_run_end(s, p + 16) == digit_run_end(s, e as int),
                decreases n - e,
            {
                e = e + 1;
            }
            assert(id_at(s, p as int));
            let id = track_id.substring_char(p + 16, e).to_owned();
            assert(digit_run_end(s, e as int) == e as int);
            return Some(id);
        }
        p = p + 1;
    }
    None
}

/// The state of the player.
#[derive(Clone, Copy, Debug, PartialEq, Eq)]
pub enum PlaybackStatus {
    Playing,
    Paused,
    Stopped,
}

/// The symbol shown for a state: the button that the player offers next.
pub open spec fn status_symbol(s: PlaybackStatus) -> char {
    match s {
        PlaybackStatus::Paused => '\u{25b6}',
        PlaybackStatus::Playing => '\u{f8e3}',
        PlaybackStatus::Stopped => '\u{f04d}',
    }
}

/// The symbol shown for the player's state.
pub fn get_status_text(status: PlaybackStatus) -> (r: char)
    ensures
        r == status_symbol(status),
{
    match status {
        PlaybackStatus::Paused => '\u{25b6}',
        PlaybackStatus::Playing => '\u{f8e3}',
        PlaybackStatus::Stopped => '\u{f04d}',
    }
}

fn status_str(status: PlaybackStatus) -> (r: &'static str)
    ensures
        r@ == seq![status_symbol(status), ' '],
{
    proof {
        reveal_strlit("\u{25b6} ");
        reveal_strlit("\u{f8e3} ");
        reveal_strlit("\u{f04d} ");
    }
    match status {
        PlaybackStatus::Paused => "\u{25b6} ",
        PlaybackStatus::Playing => "\u{f8e3} ",
        PlaybackStatus::Stopped => "\u{f04d} ",
    }
}

pub open spec fn text_or_empty(o: Option<Seq<char>>) -> Seq<char> {
    match o {
        Some(t) => t,
        None => Seq::empty(),
    }
}

/// The lyric line shown from a track at `position`: empty where none is active; `None` where
/// the track is not shown.
pub open spec fn shown_line(track: Option<&Lyrics>, position: nat) -> Option<Seq<char>> {
    match track {
        Some(t) => Some(text_or_empty(active_lyric_line(t@, position as int))),
        None => None,
    }
}

pub open spec fn status_part(status: Option<PlaybackStatus>) -> Seq<char> {
    match status {
        Some(st) => seq![status_symbol(st), ' '],
        None => Seq::empty(),
    }
}

pub open spec fn clock_part(position: nat, length: Option<nat>) -> Seq<char> {
    match length {
        Some(l) => seq![' ', '('] + clock_text(position) + seq!['/'] + clock_text(l) + seq![')'],
        None => Seq::empty(),
    }
}

/// `line` between `open` and `close`, or nothing where `line` is missing or empty.
pub open spec fn line_part(line: Option<Seq<char>>, open: Seq<char>, close: Seq<char>) -> Seq<
    char,
> {
    if text_or_empty(line).len() > 0 {
        open + text_or_empty(line) + close
    } else {
        Seq::empty()
    }
}

/// The status line: each part is left out where its value is `None`. In order: the state's
/// symbol and a space; the title; ` (mm:ss/mm:ss)`; ` - ` and the lyric line; ` [`, the
/// translated line and `]`. A lyric line that is empty is left out too.
pub open spec fn status_line_text(
    status: Option<PlaybackStatus>,
    title: Option<Seq<char>>,
    position: nat,
    length: Option<nat>,
    lyric: Option<Seq<char>>,
    translation: Option<Seq<char>>,
) -> Seq<char> {
    status_part(status) + text_or_empty(title) + clock_part(position, length) + line_part(
        lyric,
        seq![' ', '-', ' '],
        Seq::empty(),
    ) + line_part(translation, seq![' ', '['], seq![']'])
}

/// Appends the track's line active at `position`, between `open` and `close`, unless it is empty.
fn push_active_line(
    out: &mut String,
    track: Option<&Lyrics>,
    position: u64,
    open: &str,
    close: &str,
)
    ensures
        final(out)@ == old(out)@ + line_part(shown_line(track, position as nat), open@, close@),
{
    if let Some(t) = track {
        if let Some(line) = t.get_no_space_lyric(position) {
            if !line.as_str().is_empty() {
                out.append(open);
                out.append(line.as_str());
                out.append(close);
                assert(final(out)@ =~= old(out)@ + (open@ + line@ + close@));
                return ;
            }
        }
    }
    assert(final(out)@ =~= old(out)@ + Seq::<char>::empty());
}

fn push_clock_part(out: &mut String, position: u64, length: Option<u64>)
    ensures
        final(out)@ == old(out)@ + clock_part(
            position as nat,
            match length {
                Some(l) => Some(l as nat),
                None => None,
            },
        ),
{
    proof {
        reveal_strlit(" (");
        reveal_strlit(")");
    }
    if let Some(l) = length {
        out.append(" (");
        let clock = format_duration(position, l);
        out.append(clock.as_str());
        out.append(")");
        assert(final(out)@ =~= old(out)@ + clock_part(position as nat, Some(l as nat)));
    } else {
        assert(final(out)@ =~= old(out)@ + Seq::<char>::empty());
    }
}

/// The status line of one poll: see `status_line_text`. The lyric lines are those active at
/// `position`, skipping blank ones; times are in milliseconds.
pub fn status_line(
    status: Option<PlaybackStatus>,
    title: Option<&str>,
    position: u64,
    length: Option<u64>,
    lyrics: Option<&Lyrics>,
    translation: Option<&Lyrics>,
) -> (r: String)
    ensures
        r@ == status_line_text(
            status,
            match title {
                Some(t) => Some(t@),
                None => None,
            },
            position as nat,
            match length {
                Some(l) => Some(l as nat),
                None => None,
            },
            shown_line(lyrics, position as nat),
            shown_line(translation, position as nat),
        ),
{
    proof {
        reveal_strlit(" - ");
        reveal_strlit(" [");
        reveal_strlit("]");
        reveal_strlit("");
    }
    let mut out = String::new();
    if let Some(st) = status {
        out.append(status_str(st));
    }
    assert(out@ =~= status_part(status));
    let ghost s1 = out@;
    if let Some(t) = title {
        out.append(t);
    }
    let ghost title_view = match title {
        Some(t) => Some(t@),
        None => None,
    };
    assert(out@ =~= s1 + text_or_empty(title_view));
    push_clock_part(&mut out, position, length);
    push_active_line(&mut out, lyrics, position, " - ", "");
    push_active_line(&mut out, translation, position, " [", "]");
    out
}

/// What a poller keeps from one poll to the next: the track whose lyrics are loaded, and those
/// lyrics with their translation.
pub struct Session {
    pub track_id: String,
    pub lyrics: Lyrics,
    pub translation: Lyrics,
}

impl Session {
    /// No track yet.
    pub fn new() -> (r: Session)
        ensures
            r.track_id@.len() == 0,
            r.lyrics@.len() == 0,
            r.translation@.len() == 0,
    {
        Session { track_id: String::new(), lyrics: Lyrics::default(), translation: Lyrics::default() }
    }

    /// Whether the lyrics must be fetched: the track changed, or no lyrics are loaded.
    pub fn needs_fetch(&self, current_id: &String) -> (r: bool)
        ensures
            r == (self.track_id@ != current_id@ || self.lyrics@.len() == 0),
    {
        !(self.track_id == *current_id) || self.lyrics.is_empty()
    }
}

} // verus!
