//! The lyric track: every tagged line of a transcript, ordered by time, and the queries on it.
use vstd::prelude::*;
use vstd::std_specs::iter::IteratorSpec;
use vstd::string::*;
use crate::tag::{line_entries, line_tags, line_text, scan_tags, tag_millis};

verus! {

broadcast use {vstd::seq_lib::group_filter_ensures, vstd::string::group_string_axioms};

/// The content of the line `s[start..e)`; a `'\r'` just before the `'\n'` that ends it is dropped.
pub open spec fn line_content(s: Seq<char>, start: int, e: int) -> Seq<char> {
    if e < s.len() && start < e && s[e - 1] == '\r' {
        s.subrange(start, e - 1)
    } else {
        s.subrange(start, e)
    }
}

/// The lines of `s` from the line that began at `start`, scanning on from `i`.
pub open spec fn lines_from(s: Seq<char>, start: int, i: int) -> Seq<Seq<char>>
    decreases s.len() - i,
{
    if i >= s.len() {
        if start < s.len() {
            seq![line_content(s, start, s.len() as int)]
        } else {
            Seq::empty()
        }
    } else if s[i] == '\n' {
        seq![line_content(s, start, i)] + lines_from(s, i + 1, i + 1)
    } else {
        lines_from(s, start, i + 1)
    }
}

/// The lines of a transcript: split at `'\n'`, a `"\r\n"` ending counting as one, and no
/// empty line after a final line break.
pub open spec fn transcript_lines(s: Seq<char>) -> Seq<Seq<char>> {
    lines_from(s, 0, 0)
}

/// The entries of the lines, in the order of the lines.
pub open spec fn entries_of_lines(ls: Seq<Seq<char>>) -> Seq<(int, Seq<char>)>
    decreases ls.len(),
{
    if ls.len() == 0 {
        Seq::empty()
    } else {
        entries_of_lines(ls.drop_last()) + line_entries(ls.last())
    }
}

/// The entries of a transcript, before sorting.
pub open spec fn transcript_entries(s: Seq<char>) -> Seq<(int, Seq<char>)> {
    entries_of_lines(transcript_lines(s))
}

pub open spec fn sorted_by_time(es: Seq<(int, Seq<char>)>) -> bool {
    forall|i: int, j: int| 0 <= i < j < es.len() ==> es[i].0 <= es[j].0
}

/// The entries at time `t`, in the order they have in `es`.
pub open spec fn entries_at(es: Seq<(int, Seq<char>)>, t: int) -> Seq<(int, Seq<char>)> {
    es.filter(at_time(t))
}

pub open spec fn at_time(t: int) -> spec_fn((int, Seq<char>)) -> bool {
    |e: (int, Seq<char>)| e.0 == t
}

/// Each time has the same entries, in the same order, in `a` and in `b`.
pub open spec fn same_groups(a: Seq<(int, Seq<char>)>, b: Seq<(int, Seq<char>)>) -> bool {
    forall|t: int| #[trigger] entries_at(a, t) == entries_at(b, t)
}

/// `r` is `es` sorted by time, entries of equal time kept in their order.
pub open spec fn is_stable_sort_of(r: Seq<(int, Seq<char>)>, es: Seq<(int, Seq<char>)>) -> bool {
    &&& sorted_by_time(r)
    &&& same_groups(r, es)
    &&& r.len() == es.len()
}

/// The white space of `char::is_whitespace`: the characters with Unicode's White_Space property.
pub open spec fn is_whitespace(c: char) -> bool {
    ||| '\t' <= c && c <= '\r'
    ||| c == ' '
    ||| c == '\u{85}'
    ||| c == '\u{a0}'
    ||| c == '\u{1680}'
    ||| '\u{2000}' <= c && c <= '\u{200a}'
    ||| c == '\u{2028}'
    ||| c == '\u{2029}'
    ||| c == '\u{202f}'
    ||| c == '\u{205f}'
    ||| c == '\u{3000}'
}

/// Empty, or white space only.
pub open spec fn is_blank(t: Seq<char>) -> bool {
    forall|i: int| 0 <= i < t.len() ==> is_whitespace(#[trigger] t[i])
}

/// The text of the last entry whose time is strictly below `pos`.
pub open spec fn active_line(es: Seq<(int, Seq<char>)>, pos: int) -> Option<Seq<char>>
    decreases es.len(),
{
    if es.len() == 0 {
        None
    } else if es.last().0 < pos {
        Some(es.last().1)
    } else {
        active_line(es.drop_last(), pos)
    }
}

/// The text of the last entry whose time is strictly below `pos` and whose text is not blank.
pub open spec fn active_lyric_line(es: Seq<(int, Seq<char>)>, pos: int) -> Option<Seq<char>>
    decreases es.len(),
{
    if es.len() == 0 {
        None
    } else if es.last().0 < pos && !is_blank(es.last().1) {
        Some(es.last().1)
    } else {
        active_lyric_line(es.drop_last(), pos)
    }
}

pub open spec fn text_view(o: Option<String>) -> Option<Seq<char>> {
    match o {
        Some(s) => Some(s@),
        None => None,
    }
}

pub open spec fn entry_view(e: (u64, String)) -> (int, Seq<char>) {
    (e.0 as int, e.1@)
}

/// The entries of a transcript, each a time in milliseconds from the start of the track and a
/// line of text, in order of time.
#[derive(Debug, Clone)]
pub struct Lyrics {
    data: Vec<(u64, String)>,
}

impl View for Lyrics {
    type V = Seq<(int, Seq<char>)>;

    closed spec fn view(&self) -> Seq<(int, Seq<char>)> {
        self.data@.map_values(|e: (u64, String)| entry_view(e))
    }
}

proof fn lemma_entries_at_push(a: Seq<(int, Seq<char>)>, x: (int, Seq<char>), t: int)
    ensures
        entries_at(a.push(x), t) == if x.0 == t {
            entries_at(a, t).push(x)
        } else {
            entries_at(a, t)
        },
{
    reveal(Seq::filter);
    assert(a.push(x).drop_last() =~= a);
}

proof fn lemma_entries_at_none(b: Seq<(int, Seq<char>)>, t: int)
    requires
        forall|i: int| 0 <= i < b.len() ==> b[i].0 != t,
    ensures
        entries_at(b, t) == Seq::<(int, Seq<char>)>::empty(),
    decreases b.len(),
{
    reveal(Seq::filter);
    if b.len() > 0 {
        lemma_entries_at_none(b.drop_last(), t);
    }
}

proof fn lemma_same_groups_push(a: Seq<(int, Seq<char>)>, b: Seq<(int, Seq<char>)>, x: (int, Seq<char>))
    requires
        same_groups(a, b),
    ensures
        same_groups(a.push(x), b.push(x)),
{
    assert forall|t: int| #[trigger] entries_at(a.push(x), t) == entries_at(b.push(x), t) by {
        lemma_entries_at_push(a, x, t);
        lemma_entries_at_push(b, x, t);
        assert(entries_at(a, t) == entries_at(b, t));
    }
}

/// Inserting `x` after every entry not later than it keeps the order and each time's group,
/// with `x` last in its own.
proof fn lemma_insert_in_order(a: Seq<(int, Seq<char>)>, k: int, x: (int, Seq<char>))
    requires
        sorted_by_time(a),
        0 <= k <= a.len(),
        forall|i: int| 0 <= i < k ==> a[i].0 <= x.0,
        forall|i: int| k <= i < a.len() ==> a[i].0 > x.0,
    ensures
        sorted_by_time(a.insert(k, x)),
        same_groups(a.insert(k, x), a.push(x)),
{
    let lo = a.subrange(0, k);
    let hi = a.subrange(k, a.len() as int);
    assert(a.insert(k, x) =~= (lo + seq![x]) + hi);
    assert(a =~= lo + hi);
    assert forall|t: int| #[trigger] entries_at(a.insert(k, x), t) == entries_at(a.push(x), t) by {
        Seq::filter_distributes_over_add(lo + seq![x], hi, at_time(t));
        Seq::filter_distributes_over_add(lo, hi, at_time(t));
        lemma_entries_at_push(lo, x, t);
        lemma_entries_at_push(a, x, t);
        assert(lo.push(x) =~= lo + seq![x]);
        if x.0 == t {
            lemma_entries_at_none(hi, t);
            assert(entries_at(hi, t) =~= Seq::<(int, Seq<char>)>::empty());
            assert(entries_at(lo + seq![x], t) + entries_at(hi, t) =~= entries_at(lo + seq![x], t));
            assert(entries_at(lo, t) + entries_at(hi, t) =~= entries_at(lo, t));
        } else {
            assert(entries_at(lo + seq![x], t) == entries_at(lo, t));
        }
    }
}

/// Puts `e` after every entry whose time is not later than its own.
fn insert_in_order(data: &mut Vec<(u64, String)>, e: (u64, String))
    requires
        sorted_by_time(old(data)@.map_values(|e: (u64, String)| entry_view(e))),
    ensures
        sorted_by_time(final(data)@.map_values(|e: (u64, String)| entry_view(e))),
        same_groups(
            final(data)@.map_values(|e: (u64, String)| entry_view(e)),
            old(data)@.map_values(|e: (u64, String)| entry_view(e)).push(entry_view(e)),
        ),
        final(data)@.len() == old(data)@.len() + 1,
{
    let ghost a = data@.map_values(|e: (u64, String)| entry_view(e));
    let mut k: usize = data.len();
    while k > 0 && data[k - 1].0 > e.0
        invariant
            k <= data@.len(),
            a == data@.map_values(|e: (u64, String)| entry_view(e)),
            forall|i: int| k <= i < data@.len() ==> data@[i].0 > e.0,
        decreases k,
    {
        k = k - 1;
    }
    proof {
        assert forall|i: int| 0 <= i < k implies a[i].0 <= entry_view(e).0 by {
            assert(a[i].0 <= a[k - 1].0);
        }
        lemma_insert_in_order(a, k as int, entry_view(e));
    }
    let ghost ev = entry_view(e);
    data.insert(k, e);
    assert(data@.map_values(|e: (u64, String)| entry_view(e)) =~= a.insert(k as int, ev));
}

/// The characters of `s`, one by one.
pub(crate) fn chars_of(s: &str) -> (r: Vec<char>)
    ensures
        r@ == s@,
{
    let mut v: Vec<char> = Vec::new();
    let mut it = s.chars();
    loop
        invariant
            v@ + it.remaining() == s@,
            it.decrease() is Some,
        ensures
            v@ == s@,
        decreases it.decrease()->0,
    {
        match it.next() {
            Some(c) => {
                assert(v@.push(c) + it.remaining() =~= v@ + (seq![c] + it.remaining()));
                v.push(c);
            },
            None => {
                assert(v@ =~= v@ + it.remaining());
                break ;
            },
        }
    }
    v
}

/// Adds the entries of the line `s[start..e)` to `data`, where `data` has the groups of `before`.
fn add_line(
    text: &str,
    chars: &Vec<char>,
    start: usize,
    e: usize,
    data: &mut Vec<(u64, String)>,
    Ghost(before): Ghost<Seq<(int, Seq<char>)>>,
)
    requires
        chars@ == text@,
        start <= e <= chars@.len(),
        sorted_by_time(old(data)@.map_values(|e: (u64, String)| entry_view(e))),
        same_groups(old(data)@.map_values(|e: (u64, String)| entry_view(e)), before),
        old(data)@.len() == before.len(),
    ensures
        final(data)@.len() == before.len() + line_entries(line_content(text@, start as int, e as int)).len(),
        sorted_by_time(final(data)@.map_values(|e: (u64, String)| entry_view(e))),
        same_groups(
            final(data)@.map_values(|e: (u64, String)| entry_view(e)),
            before + line_entries(line_content(text@, start as int, e as int)),
        ),
{
    let n = chars.len();
    let cend: usize = if e < n && start < e && chars[e - 1] == '\r' {
        e - 1
    } else {
        e
    };
    let mut line: Vec<char> = Vec::new();
    let mut i: usize = start;
    while i < cend
        invariant
            start <= i <= cend <= chars@.len(),
            line@ == chars@.subrange(start as int, i as int),
        decreases cend - i,
    {
        line.push(chars[i]);
        i = i + 1;
        assert(line@ =~= chars@.subrange(start as int, i as int));
    }
    let ghost l = line@;
    assert(l == line_content(text@, start as int, e as int));
    let ghost le = line_entries(l);
    let (times, text_start) = scan_tags(&line);
    if times.len() == 0 {
        assert(before + le =~= before);
        return ;
    }
    let txt: String = text.substring_char(start + text_start, cend).to_owned();
    assert(txt@ =~= line_text(l));
    assert(before + le.take(0) =~= before);
    let mut j: usize = 0;
    while j < times.len()
        invariant
            j <= times@.len(),
            times@.len() == le.len(),
            le == line_entries(l),
            txt@ == line_text(l),
            forall|i: int|
                0 <= i < times@.len() ==> #[trigger] times@[i] as int == tag_millis(l, line_tags(l)[i]),
            sorted_by_time(data@.map_values(|e: (u64, String)| entry_view(e))),
            same_groups(data@.map_values(|e: (u64, String)| entry_view(e)), before + le.take(j as int)),
            data@.len() == before.len() + j,
        decreases times@.len() - j,
    {
        let t = times[j];
        let ghost a = data@.map_values(|e: (u64, String)| entry_view(e));
        let entry = (t, txt.clone());
        assert(entry_view(entry) == le[j as int]);
        insert_in_order(data, entry);
        proof {
            lemma_same_groups_push(a, before + le.take(j as int), le[j as int]);
            assert((before + le.take(j as int)).push(le[j as int]) =~= before + le.take(j + 1));
        }
        j = j + 1;
    }
    assert(le.take(j as int) =~= le);
}

proof fn lemma_entries_of_lines_push(ls: Seq<Seq<char>>, l: Seq<char>)
    ensures
        entries_of_lines(ls.push(l)) == entries_of_lines(ls) + line_entries(l),
{
    assert(ls.push(l).drop_last() =~= ls);
}

impl Lyrics {
    /// Entries in order of time.
    pub open spec fn wf(&self) -> bool {
        sorted_by_time(self@)
    }

    /// Builds the track of a transcript: one entry per tag of each line, with the text after
    /// the line's last tag, sorted by time; entries of equal time keep the order of the
    /// transcript. Lines without a tag add nothing.
    pub fn from_transcript(text: &str) -> (r: Lyrics)
        ensures
            r.wf(),
            is_stable_sort_of(r@, transcript_entries(text@)),
    {
        let chars = chars_of(text);
        let n = chars.len();
        let mut data: Vec<(u64, String)> = Vec::new();
        let mut start: usize = 0;
        let mut i: usize = 0;
        let ghost s = text@;
        let ghost done: Seq<Seq<char>> = Seq::empty();
        assert(data@.map_values(|e: (u64, String)| entry_view(e)) =~= entries_of_lines(done));
        while i < n
            invariant
                chars@ == s,
                s == text@,
                n == s.len(),
                start <= i <= n,
                transcript_lines(s) == done + lines_from(s, start as int, i as int),
                sorted_by_time(data@.map_values(|e: (u64, String)| entry_view(e))),
                same_groups(data@.map_values(|e: (u64, String)| entry_view(e)), entries_of_lines(done)),
                data@.len() == entries_of_lines(done).len(),
            decreases n - i,
        {
            if chars[i] == '\n' {
                let ghost c = line_content(s, start as int, i as int);
                add_line(text, &chars, start, i, &mut data, Ghost(entries_of_lines(done)));
                proof {
                    lemma_entries_of_lines_push(done, c);
                    assert(done.push(c) + lines_from(s, i + 1, i + 1) =~= done + (seq![c]
                        + lines_from(s, i + 1, i + 1)));
                    done = done.push(c);
                }
                start = i + 1;
            }
            i = i + 1;
        }
        if start < n {
            let ghost c = line_content(s, start as int, n as int);
            add_line(text, &chars, start, n, &mut data, Ghost(entries_of_lines(done)));
            proof {
                lemma_entries_of_lines_push(done, c);
                assert(done + seq![c] =~= done.push(c));
                done = done.push(c);
            }
        } else {
            assert(done + lines_from(s, start as int, i as int) =~= done);
        }
        Lyrics { data }
    }

    /// Whether the track has no entry.
    pub fn is_empty(&self) -> (r: bool)
        ensures
            r == (self@.len() == 0),
    {
        self.data.len() == 0
    }

    /// The text of the last entry whose time, in milliseconds, is strictly below `time`;
    /// `None` where there is none.
    pub fn get_lyric(&self, time: u64) -> (r: Option<String>)
        ensures
            text_view(r) == active_line(self@, time as int),
    {
        let ghost es = self@;
        let mut i: usize = self.data.len();
        assert(es.subrange(0, i as int) =~= es);
        while i > 0
            invariant
                i <= self.data@.len(),
                es == self@,
                active_line(es, time as int) == active_line(es.subrange(0, i as int), time as int),
            decreases i,
        {
            assert(es.subrange(0, i as int).drop_last() =~= es.subrange(0, i - 1));
            if self.data[i - 1].0 < time {
                return Some(self.data[i - 1].1.clone());
            }
            i = i - 1;
        }
        None
    }

    /// The text of the last entry whose time, in milliseconds, is strictly below `time` and
    /// whose text is not empty or white space only; `None` where there is none.
    pub fn get_no_space_lyric(&self, time: u64) -> (r: Option<String>)
        ensures
            text_view(r) == active_lyric_line(self@, time as int),
    {
        let ghost es = self@;
        let mut i: usize = self.data.len();
        assert(es.subrange(0, i as int) =~= es);
        while i > 0
            invariant
                i <= self.data@.len(),
                es == self@,
                active_lyric_line(es, time as int) == active_lyric_line(
                    es.subrange(0, i as int),
                    time as int,
                ),
            decreases i,
        {
            assert(es.subrange(0, i as int).drop_last() =~= es.subrange(0, i - 1));
            if self.data[i - 1].0 < time && !is_blank_text(self.data[i - 1].1.as_str()) {
                return Some(self.data[i - 1].1.clone());
            }
            i = i - 1;
        }
        None
    }

    /// The entries in order of time, as (milliseconds, text) pairs.
    pub fn iter(&self) -> (r: std::slice::Iter<'_, (u64, String)>)
        ensures
            r.remaining().map_values(|e: &(u64, String)| entry_view(*e)) == self@,
    {
        self.data.as_slice().iter()
    }

    /// The track of a transcript, or the empty track where there is no transcript.
    pub open spec fn is_track_of(&self, text: Option<Seq<char>>) -> bool {
        match text {
            Some(t) => self.wf() && is_stable_sort_of(self@, transcript_entries(t)),
            None => self@.len() == 0,
        }
    }

    fn from_optional(text: Option<&str>) -> (r: Lyrics)
        ensures
            r.wf(),
            r.is_track_of(
                match text {
                    Some(t) => Some(t@),
                    None => None,
                },
            ),
    {
        match text {
            Some(t) => Lyrics::from_transcript(t),
            None => Lyrics::default(),
        }
    }

    /// The tracks of the three variants of a song's lyrics: the lyrics themselves, their translation and
    /// their phonetic rendering. A variant that is missing gives the empty track.
    pub fn from_variants(lyric: &str, translated: Option<&str>, phonetic: Option<&str>) -> (r: (
        Lyrics,
        Lyrics,
        Lyrics,
    ))
        ensures
            r.0.is_track_of(Some(lyric@)),
            r.1.is_track_of(
                match translated {
                    Some(t) => Some(t@),
                    None => None,
                },
            ),
            r.2.is_track_of(
                match phonetic {
                    Some(t) => Some(t@),
                    None => None,
                },
            ),
    {
        (
            Lyrics::from_transcript(lyric),
            Lyrics::from_optional(translated),
            Lyrics::from_optional(phonetic),
        )
    }
}

impl Default for Lyrics {
    /// The empty track.
    fn default() -> (r: Lyrics)
        ensures
            r@ == Seq::<(int, Seq<char>)>::empty(),
            r.wf(),
    {
        let r = Lyrics { data: Vec::new() };
        assert(r@ =~= Seq::<(int, Seq<char>)>::empty());
        r
    }
}

fn is_whitespace_char(c: char) -> (r: bool)
    ensures
        r == is_whitespace(c),
{
    ('\t' <= c && c <= '\r') || c == ' ' || c == '\u{85}' || c == '\u{a0}' || c == '\u{1680}' || (
    '\u{2000}' <= c && c <= '\u{200a}') || c == '\u{2028}' || c == '\u{2029}' || c == '\u{202f}'
        || c == '\u{205f}' || c == '\u{3000}'
}

fn is_blank_text(t: &str) -> (r: bool)
    ensures
        r == is_blank(t@),
{
    let cs = chars_of(t);
    let mut i: usize = 0;
    while i < cs.len()
        invariant
            i <= cs@.len(),
            cs@ == t@,
            forall|j: int| 0 <= j < i ==> is_whitespace(#[trigger] cs@[j]),
        decreases cs@.len() - i,
    {
        if !is_whitespace_char(cs[i]) {
            return false;
        }
        i = i + 1;
    }
    true
}

/// Every entry of a sort of `es` is an entry of `es`.
proof fn lemma_sorted_entries_come_from(r: Seq<(int, Seq<char>)>, es: Seq<(int, Seq<char>)>)
    requires
        same_groups(r, es),
    ensures
        forall|i: int| 0 <= i < r.len() ==> es.contains(#[trigger] r[i]),
{
    assert forall|i: int| 0 <= i < r.len() implies es.contains(#[trigger] r[i]) by {
        let t = r[i].0;
        r.lemma_filter_contains(at_time(t), i);
        assert(entries_at(r, t) == entries_at(es, t));
        es.lemma_filter_contains_rev(at_time(t), r[i]);
    }
}

proof fn lemma_lines_without_break(s: Seq<char>, i: int)
    requires
        0 < s.len(),
        0 <= i <= s.len(),
        forall|j: int| 0 <= j < s.len() ==> s[j] != '\n',
    ensures
        lines_from(s, 0, i) == seq![s],
    decreases s.len() - i,
{
    if i < s.len() {
        lemma_lines_without_break(s, i + 1);
    } else {
        assert(line_content(s, 0, s.len() as int) =~= s);
    }
}

proof fn lemma_untagged_lines(ls: Seq<Seq<char>>)
    requires
        forall|i: int| 0 <= i < ls.len() ==> line_tags(#[trigger] ls[i]).len() == 0,
    ensures
        entries_of_lines(ls).len() == 0,
    decreases ls.len(),
{
    if ls.len() > 0 {
        lemma_untagged_lines(ls.drop_last());
        assert(line_tags(ls[ls.len() - 1]).len() == 0);
    }
}

/// A line with k tags gives k entries, the i-th at the time of the i-th tag, and all of them
/// with the same text: what follows the last tag.
pub proof fn lemma_line_fan_out(l: Seq<char>)
    ensures
        line_entries(l).len() == line_tags(l).len(),
        forall|i: int|
            0 <= i < line_entries(l).len() ==> #[trigger] line_entries(l)[i] == (
            tag_millis(l, line_tags(l)[i]),
            line_text(l),
        ),
{
}

/// A line without a tag adds no entry to the lines before it.
pub proof fn lemma_untagged_line(ls: Seq<Seq<char>>, l: Seq<char>)
    requires
        line_tags(l).len() == 0,
    ensures
        line_entries(l).len() == 0,
        entries_of_lines(ls.push(l)) == entries_of_lines(ls),
{
    lemma_entries_of_lines_push(ls, l);
    assert(entries_of_lines(ls) + line_entries(l) =~= entries_of_lines(ls));
}

/// The track of a transcript of one line with k tags has k entries, all with the text that
/// follows the line's last tag.
pub proof fn lemma_one_line_track(s: Seq<char>, track: Lyrics)
    requires
        forall|j: int| 0 <= j < s.len() ==> s[j] != '\n',
        track.is_track_of(Some(s)),
    ensures
        track@.len() == line_tags(s).len(),
        forall|i: int| 0 <= i < track@.len() ==> (#[trigger] track@[i]).1 == line_text(s),
{
    if s.len() == 0 {
        assert(transcript_entries(s).len() == 0);
    } else {
        lemma_lines_without_break(s, 0);
        let ls = transcript_lines(s);
        assert(ls == seq![s]);
        assert(ls.drop_last() =~= Seq::<Seq<char>>::empty());
        assert(entries_of_lines(ls) == entries_of_lines(ls.drop_last()) + line_entries(s));
        assert(entries_of_lines(Seq::<Seq<char>>::empty()) == Seq::<(int, Seq<char>)>::empty());
        assert(transcript_entries(s) =~= line_entries(s));
        lemma_sorted_entries_come_from(track@, transcript_entries(s));
        assert forall|i: int| 0 <= i < track@.len() implies (#[trigger] track@[i]).1 == line_text(
            s,
        ) by {
            assert(line_entries(s).contains(track@[i]));
        }
    }
}

/// A transcript none of whose lines holds a tag gives the empty track.
pub proof fn lemma_untagged_transcript(s: Seq<char>, track: Lyrics)
    requires
        forall|i: int|
            0 <= i < transcript_lines(s).len() ==> line_tags(#[trigger] transcript_lines(s)[i]).len()
                == 0,
        track.is_track_of(Some(s)),
    ensures
        track@.len() == 0,
{
    lemma_untagged_lines(transcript_lines(s));
}

/// The empty transcript gives the empty track, on which no position has an active line.
pub proof fn lemma_empty_transcript(track: Lyrics, pos: int)
    requires
        track.is_track_of(Some(Seq::empty())),
    ensures
        track@.len() == 0,
        active_line(track@, pos) is None,
        active_lyric_line(track@, pos) is None,
{
    assert(transcript_lines(Seq::<char>::empty()) =~= Seq::<Seq<char>>::empty());
}

proof fn lemma_active_line_latest_seq(es: Seq<(int, Seq<char>)>, pos: int)
    requires
        sorted_by_time(es),
    ensures
        active_line(es, pos) is None <==> forall|j: int| 0 <= j < es.len() ==> es[j].0 >= pos,
        active_line(es, pos) is Some ==> exists|i: int|
            0 <= i < es.len() && es[i].0 < pos && active_line(es, pos) == Some(es[i].1) && (forall|
                j: int,
            | 0 <= j < es.len() && es[j].0 < pos ==> es[j].0 <= es[i].0),
    decreases es.len(),
{
    if es.len() > 0 {
        let n = es.len() - 1;
        let rest = es.drop_last();
        assert(sorted_by_time(rest));
        lemma_active_line_latest_seq(rest, pos);
        if es[n].0 < pos {
            assert(forall|j: int| 0 <= j < es.len() && es[j].0 < pos ==> es[j].0 <= es[n].0);
        } else {
            assert(forall|j: int| 0 <= j < rest.len() ==> rest[j] == es[j]);
            if active_line(rest, pos) is Some {
                let i = choose|i: int|
                    0 <= i < rest.len() && rest[i].0 < pos && active_line(rest, pos) == Some(
                        rest[i].1,
                    ) && (forall|j: int|
                        0 <= j < rest.len() && rest[j].0 < pos ==> rest[j].0 <= rest[i].0);
                assert(es[i].0 < pos && active_line(es, pos) == Some(es[i].1));
                assert(forall|j: int| 0 <= j < es.len() && es[j].0 < pos ==> es[j].0 <= es[i].0);
            }
        }
    }
}

/// On a track, the active line at `pos` is the text of an entry with the greatest time strictly
/// below `pos`; there is none exactly where no entry is strictly below `pos`.
pub proof fn lemma_active_line_latest(track: Lyrics, pos: int)
    requires
        track.wf(),
    ensures
        active_line(track@, pos) is None <==> forall|j: int|
            0 <= j < track@.len() ==> track@[j].0 >= pos,
        active_line(track@, pos) is Some ==> exists|i: int|
            0 <= i < track@.len() && track@[i].0 < pos && active_line(track@, pos) == Some(
                track@[i].1,
            ) && (forall|j: int|
                0 <= j < track@.len() && track@[j].0 < pos ==> track@[j].0 <= track@[i].0),
{
    lemma_active_line_latest_seq(track@, pos);
}

pub open spec fn not_blank_entry() -> spec_fn((int, Seq<char>)) -> bool {
    |e: (int, Seq<char>)| !is_blank(e.1)
}

/// The query that skips blank lines is the plain query on the entries whose text is not blank.
pub proof fn lemma_lyric_line_skips_blank(es: Seq<(int, Seq<char>)>, pos: int)
    ensures
        active_lyric_line(es, pos) == active_line(es.filter(not_blank_entry()), pos),
    decreases es.len(),
{
    reveal(Seq::filter);
    if es.len() > 0 {
        let rest = es.drop_last();
        lemma_lyric_line_skips_blank(rest, pos);
        let f = rest.filter(not_blank_entry());
        if !is_blank(es.last().1) {
            assert(f.push(es.last()).drop_last() =~= f);
        }
    }
}

} // verus!
