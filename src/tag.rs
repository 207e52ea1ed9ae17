//! The timestamp tag grammar: `[mm:ss.f]`, `[mm:ss.ff]` or `[mm:ss.fff]`.
use vstd::prelude::*;

verus! {

pub open spec fn is_digit(c: char) -> bool {
    '0' <= c && c <= '9'
}

pub open spec fn digit_value(c: char) -> int {
    c as int - '0' as int
}

/// The value of a string of decimal digits.
pub open spec fn decimal_value(ds: Seq<char>) -> int
    decreases ds.len(),
{
    if ds.len() == 0 {
        0
    } else {
        10 * decimal_value(ds.drop_last()) + digit_value(ds.last())
    }
}

pub open spec fn pow10(e: nat) -> int
    decreases e,
{
    if e == 0 {
        1
    } else {
        10 * pow10((e - 1) as nat)
    }
}

/// A tag with exactly `f` fraction digits starts at index `p` of the line `l`.
pub open spec fn tag_with_fraction(l: Seq<char>, p: int, f: int) -> bool {
    &&& 0 <= p
    &&& p + 8 + f <= l.len()
    &&& l[p] == '['
    &&& is_digit(l[p + 1])
    &&& is_digit(l[p + 2])
    &&& l[p + 3] == ':'
    &&& is_digit(l[p + 4])
    &&& is_digit(l[p + 5])
    &&& l[p + 6] == '.'
    &&& forall|k: int| 0 <= k < f ==> is_digit(#[trigger] l[p + 7 + k])
    &&& l[p + 7 + f] == ']'
}

/// The number of fraction digits of the tag that starts at `p`, or 0 where no tag starts there.
pub open spec fn fraction_len(l: Seq<char>, p: int) -> int {
    if tag_with_fraction(l, p, 1) {
        1
    } else if tag_with_fraction(l, p, 2) {
        2
    } else if tag_with_fraction(l, p, 3) {
        3
    } else {
        0
    }
}

pub open spec fn is_tag_at(l: Seq<char>, p: int) -> bool {
    fraction_len(l, p) > 0
}

/// The index just past the tag that starts at `p`.
pub open spec fn tag_end(l: Seq<char>, p: int) -> int {
    p + 8 + fraction_len(l, p)
}

/// Milliseconds of the tag at `p`: minutes, seconds, and the fraction scaled to three digits.
pub open spec fn tag_millis(l: Seq<char>, p: int) -> int {
    let f = fraction_len(l, p);
    decimal_value(l.subrange(p + 1, p + 3)) * 60_000 + decimal_value(l.subrange(p + 4, p + 6))
        * 1000 + decimal_value(l.subrange(p + 7, p + 7 + f)) * pow10((3 - f) as nat)
}

/// Start indices of the tags found scanning from `p` to the end of the line, left to right;
/// the scan resumes after the end of each tag.
pub open spec fn tag_starts_from(l: Seq<char>, p: int) -> Seq<int>
    decreases l.len() - p,
{
    if p < 0 || p >= l.len() {
        Seq::empty()
    } else if is_tag_at(l, p) {
        seq![p] + tag_starts_from(l, tag_end(l, p))
    } else {
        tag_starts_from(l, p + 1)
    }
}

pub open spec fn line_tags(l: Seq<char>) -> Seq<int> {
    tag_starts_from(l, 0)
}

/// What follows the last tag of the line.
pub open spec fn line_text(l: Seq<char>) -> Seq<char> {
    let ts = line_tags(l);
    if ts.len() == 0 {
        l
    } else {
        l.subrange(tag_end(l, ts.last()), l.len() as int)
    }
}

/// The entries one line contributes: one per tag, each with the text after the last tag.
pub open spec fn line_entries(l: Seq<char>) -> Seq<(int, Seq<char>)> {
    line_tags(l).map_values(|p: int| (tag_millis(l, p), line_text(l)))
}

pub(crate) fn digit_at(l: &Vec<char>, i: usize) -> (r: bool)
    requires
        i < l@.len(),
    ensures
        r == is_digit(l@[i as int]),
{
    let c = l[i];
    '0' <= c && c <= '9'
}

/// Number of fraction digits of the tag at `p`, 0 where there is none.
fn fraction_len_at(l: &Vec<char>, p: usize) -> (f: usize)
    requires
        p < l@.len(),
    ensures
        f as int == fraction_len(l@, p as int),
{
    let n = l.len();
    if n - p < 9 {
        return 0;
    }
    if !(l[p] == '[' && digit_at(l, p + 1) && digit_at(l, p + 2) && l[p + 3] == ':' && digit_at(
        l,
        p + 4,
    ) && digit_at(l, p + 5) && l[p + 6] == '.') {
        return 0;
    }
    let mut k: usize = 0;
    while k < 3 && p + 7 + k < n && digit_at(l, p + 7 + k)
        invariant
            k <= 3,
            p + 9 <= n,
            n == l@.len(),
            p + 7 + k <= n,
            forall|j: int| 0 <= j < k ==> is_digit(#[trigger] l@[p + 7 + j]),
        decreases 3 - k,
    {
        k = k + 1;
    }
    if k >= 1 && p + 7 + k < n && l[p + 7 + k] == ']' {
        assert(tag_with_fraction(l@, p as int, k as int));
        proof {
            if k >= 2 {
                assert(is_digit(l@[p + 7 + 1]));
                assert(!tag_with_fraction(l@, p as int, 1));
            }
            if k == 3 {
                assert(is_digit(l@[p + 7 + 2]));
                assert(!tag_with_fraction(l@, p as int, 2));
            }
        }
        k
    } else {
        proof {
            assert forall|f: int| 1 <= f <= 3 implies !tag_with_fraction(l@, p as int, f) by {
                if f < k {
                    assert(is_digit(l@[p + 7 + f]));
                } else if f > k {
                    if p + 7 + k < n {
                        assert(k < 3);
                        assert(!is_digit(l@[p + 7 + k]));
                        let j = k as int;
                        if tag_with_fraction(l@, p as int, f) {
                            assert(is_digit(l@[p + 7 + j]));
                        }
                    }
                }
            }
        }
        0
    }
}

proof fn lemma_pow10_small()
    ensures
        pow10(0) == 1,
        pow10(1) == 10,
        pow10(2) == 100,
        pow10(3) == 1000,
{
    assert(pow10(0) == 1);
    assert(pow10(1) == 10);
    assert(pow10(2) == 100);
    assert(pow10(3) == 1000);
}

/// The value of the digits `l[from..to]`, at most three of them.
fn decimal_at(l: &Vec<char>, from: usize, to: usize) -> (r: u64)
    requires
        from <= to <= l@.len(),
        to - from <= 3,
        forall|i: int| from <= i < to ==> is_digit(#[trigger] l@[i]),
    ensures
        r as int == decimal_value(l@.subrange(from as int, to as int)),
        r < 1000,
{
    proof {
        lemma_pow10_small();
    }
    let mut v: u64 = 0;
    let mut k: usize = from;
    assert(l@.subrange(from as int, from as int).len() == 0);
    while k < to
        invariant
            from <= k <= to <= l@.len(),
            to - from <= 3,
            forall|i: int| from <= i < to ==> is_digit(#[trigger] l@[i]),
            v as int == decimal_value(l@.subrange(from as int, k as int)),
            v < pow10((k - from) as nat),
        decreases to - k,
    {
        proof {
            lemma_pow10_small();
        }
        assert(v < 100);
        let ghost prev = l@.subrange(from as int, k as int);
        assert(l@.subrange(from as int, k + 1).drop_last() =~= prev);
        assert(is_digit(l@[k as int]));
        let d = (l[k] as u32 - '0' as u32) as u64;
        v = v * 10 + d;
        k = k + 1;
    }
    v
}

/// Milliseconds of the tag that starts at `p`.
fn tag_millis_at(l: &Vec<char>, p: usize) -> (r: u64)
    requires
        p < l@.len(),
        is_tag_at(l@, p as int),
    ensures
        r as int == tag_millis(l@, p as int),
{
    proof {
        lemma_pow10_small();
    }
    let f = fraction_len_at(l, p);
    assert(tag_with_fraction(l@, p as int, f as int));
    let n = l.len();
    assert(p + 8 + f <= n);
    let minutes = decimal_at(l, p + 1, p + 3);
    let seconds = decimal_at(l, p + 4, p + 6);
    assert forall|i: int| p + 7 <= i < p + 7 + f implies is_digit(#[trigger] l@[i]) by {
        assert(is_digit(l@[p + 7 + (i - p - 7)]));
    }
    let fraction = decimal_at(l, p + 7, p + 7 + f);
    let scale: u64 = if f == 1 {
        100
    } else if f == 2 {
        10
    } else {
        1
    };
    assert(scale as int == pow10((3 - f) as nat));
    minutes * 60_000 + seconds * 1000 + fraction * scale
}

/// The times of the line's tags, left to right, and where the text after the last one starts.
pub fn scan_tags(l: &Vec<char>) -> (r: (Vec<u64>, usize))
    ensures
        r.0@.len() == line_tags(l@).len(),
        forall|i: int|
            0 <= i < r.0@.len() ==> #[trigger] r.0@[i] as int == tag_millis(l@, line_tags(l@)[i]),
        line_tags(l@).len() > 0 ==> r.1 as int == tag_end(l@, line_tags(l@).last()),
        r.1 <= l@.len(),
{
    let n = l.len();
    let mut times: Vec<u64> = Vec::new();
    let mut last_end: usize = 0;
    let mut p: usize = 0;
    let ghost seen: Seq<int> = Seq::empty();
    while p < n
        invariant
            n == l@.len(),
            p <= n,
            last_end <= n,
            line_tags(l@) == seen + tag_starts_from(l@, p as int),
            times@.len() == seen.len(),
            forall|i: int|
                0 <= i < times@.len() ==> #[trigger] times@[i] as int == tag_millis(l@, seen[i]),
            seen.len() > 0 ==> last_end as int == tag_end(l@, seen.last()),
        decreases n - p,
    {
        let f = fraction_len_at(l, p);
        if f > 0 {
            let t = tag_millis_at(l, p);
            times.push(t);
            proof {
                assert(seen.push(p as int) + tag_starts_from(l@, tag_end(l@, p as int)) =~= seen + (
                seq![p as int] + tag_starts_from(l@, tag_end(l@, p as int))));
                seen = seen.push(p as int);
            }
            p = p + 8 + f;
            last_end = p;
        } else {
            p = p + 1;
        }
    }
    assert(seen + tag_starts_from(l@, p as int) =~= seen);
    (times, last_end)
}

} // verus!
