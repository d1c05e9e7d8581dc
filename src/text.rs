use vstd::prelude::*;

verus! {

/// The lines of `t[start..]` when the current line began at `start` and `t[start..i]` holds no
/// line feed. A line ends at `\n`, which is not part of it, and a `\r` just before the `\n` is
/// dropped too. A line feed at the very end opens no further line.
pub open spec fn lines_from(t: Seq<u8>, start: int, i: int) -> Seq<(int, int)>
    decreases t.len() - i,
{
    if i >= t.len() {
        if start < t.len() {
            seq![(start, line_end(t, start, t.len() as int))]
        } else {
            seq![]
        }
    } else if t[i] == 10 {
        seq![(start, line_end(t, start, i))] + lines_from(t, i + 1, i + 1)
    } else {
        lines_from(t, start, i + 1)
    }
}

/// The end of the line `t[s..e]` once a trailing `\r` is dropped.
pub open spec fn line_end(t: Seq<u8>, s: int, e: int) -> int {
    if e > s && t[e - 1] == 13 {
        e - 1
    } else {
        e
    }
}

/// The spans `(start, end)` of the lines of `t`.
pub open spec fn lines(t: Seq<u8>) -> Seq<(int, int)> {
    lines_from(t, 0, 0)
}

pub open spec fn as_spans(v: Seq<(usize, usize)>) -> Seq<(int, int)> {
    v.map_values(|p: (usize, usize)| (p.0 as int, p.1 as int))
}

/// The end of the word that starts at `i`: the first space in `t[i..e]`, or `e`.
pub open spec fn word_end(t: Seq<u8>, i: int, e: int) -> int
    decreases e - i,
{
    if i >= e {
        e
    } else if t[i] == 32 {
        i
    } else {
        word_end(t, i + 1, e)
    }
}

/// The start of the last word of `t[s..e]`: just after its last space, or `s`.
pub open spec fn last_word_start(t: Seq<u8>, s: int, e: int) -> int
    decreases e - s,
{
    if e <= s {
        s
    } else if t[e - 1] == 32 {
        e
    } else {
        last_word_start(t, s, e - 1)
    }
}

pub open spec fn is_digit(c: u8) -> bool {
    48 <= c <= 57
}

pub open spec fn all_digits(t: Seq<u8>, s: int, e: int) -> bool {
    forall|i: int| s <= i < e ==> is_digit(#[trigger] t[i])
}

/// The decimal value of the digits `t[s..e]`.
pub open spec fn digits_value(t: Seq<u8>, s: int, e: int) -> nat
    decreases e - s,
{
    if e <= s {
        0
    } else {
        digits_value(t, s, e - 1) * 10 + (t[e - 1] - 48) as nat
    }
}

/// The unsigned decimal number `t[s..e]`: an optional `+`, then one digit or more.
pub open spec fn number_value(t: Seq<u8>, s: int, e: int) -> Option<nat> {
    let d = if s < e && t[s] == 43 {
        s + 1
    } else {
        s
    };
    if d < e && all_digits(t, d, e) {
        Some(digits_value(t, d, e))
    } else {
        None
    }
}

/// The number `t[s..e]` where it is at most `max`.
pub open spec fn bounded_number(t: Seq<u8>, s: int, e: int, max: nat) -> Option<nat> {
    match number_value(t, s, e) {
        Some(v) => if v <= max {
            Some(v)
        } else {
            None
        },
        None => None,
    }
}

proof fn lemma_lines_within(t: Seq<u8>, start: int, i: int)
    requires
        0 <= start <= i,
    ensures
        forall|k: int|
            0 <= k < lines_from(t, start, i).len() ==> 0 <= (#[trigger] lines_from(t, start, i)[k]).0
                <= lines_from(t, start, i)[k].1 <= t.len(),
    decreases t.len() - i,
{
    if i < t.len() {
        if t[i] == 10 {
            lemma_lines_within(t, i + 1, i + 1);
            let rest = lines_from(t, i + 1, i + 1);
            let all = seq![(start, line_end(t, start, i))] + rest;
            assert(lines_from(t, start, i) == all);
            assert forall|k: int| 0 <= k < all.len() implies 0 <= (#[trigger] all[k]).0 <= all[k].1
                <= t.len() by {
                if k > 0 {
                    assert(all[k] == rest[k - 1]);
                }
            }
        } else {
            lemma_lines_within(t, start, i + 1);
            assert(lines_from(t, start, i) == lines_from(t, start, i + 1));
        }
    } else if start < t.len() {
        assert(lines_from(t, start, i) == seq![(start, line_end(t, start, t.len() as int))]);
    } else {
        assert(lines_from(t, start, i).len() == 0);
    }
}

/// The spans of the lines of `text`.
pub fn line_spans(text: &[u8]) -> (r: Vec<(usize, usize)>)
    ensures
        as_spans(r@) == lines(text@),
        forall|k: int| 0 <= k < r@.len() ==> (#[trigger] r@[k]).0 <= r@[k].1 <= text@.len(),
{
    let ghost t = text@;
    let mut out: Vec<(usize, usize)> = Vec::new();
    let mut start: usize = 0;
    let mut i: usize = 0;
    while i < text.len()
        invariant
            t == text@,
            start <= i <= t.len(),
            lines(t) == as_spans(out@) + lines_from(t, start as int, i as int),
        decreases t.len() - i,
    {
        if text[i] == 10 {
            let end = if i > start && text[i - 1] == 13 {
                i - 1
            } else {
                i
            };
            let ghost before = out@;
            out.push((start, end));
            proof {
                assert(as_spans(out@) =~= as_spans(before).push((start as int, end as int)));
                assert(as_spans(before) + (seq![(start as int, end as int)] + lines_from(
                    t,
                    i + 1,
                    i + 1,
                )) =~= as_spans(out@) + lines_from(t, i + 1, i + 1));
            }
            start = i + 1;
        }
        i = i + 1;
    }
    if start < text.len() {
        let n = text.len();
        let end = if n > start && text[n - 1] == 13 {
            n - 1
        } else {
            n
        };
        let ghost before = out@;
        out.push((start, end));
        proof {
            assert(as_spans(out@) =~= as_spans(before).push((start as int, end as int)));
            assert(as_spans(before) + seq![(start as int, end as int)] =~= as_spans(out@));
        }
    } else {
        proof {
            assert(as_spans(out@) + Seq::<(int, int)>::empty() =~= as_spans(out@));
        }
    }
    proof {
        lemma_lines_within(t, 0, 0);
        assert forall|k: int| 0 <= k < out@.len() implies (#[trigger] out@[k]).0 <= out@[k].1
            <= text@.len() by {
            assert(as_spans(out@)[k] == lines(t)[k]);
        }
    }
    out
}

/// The end of the word that starts at `i` in `text[..e]`.
pub fn word_end_at(text: &[u8], i: usize, e: usize) -> (r: usize)
    requires
        i <= e <= text@.len(),
    ensures
        r as int == word_end(text@, i as int, e as int),
        i <= r <= e,
{
    let mut j = i;
    while j < e && text[j] != 32
        invariant
            i <= j <= e <= text@.len(),
            word_end(text@, i as int, e as int) == word_end(text@, j as int, e as int),
        decreases e - j,
    {
        j = j + 1;
    }
    j
}

/// The start of the last word of `text[s..e]`.
pub fn last_word_start_at(text: &[u8], s: usize, e: usize) -> (r: usize)
    requires
        s <= e <= text@.len(),
    ensures
        r as int == last_word_start(text@, s as int, e as int),
        s <= r <= e,
{
    let mut j = e;
    while j > s && text[j - 1] != 32
        invariant
            s <= j <= e <= text@.len(),
            last_word_start(text@, s as int, e as int) == last_word_start(text@, s as int, j as int),
        decreases j - s,
    {
        j = j - 1;
    }
    j
}

proof fn lemma_digits_grow(t: Seq<u8>, d: int, i: int, j: int)
    requires
        d <= i <= j,
        all_digits(t, d, j),
    ensures
        digits_value(t, d, i) <= digits_value(t, d, j),
    decreases j - i,
{
    if i < j {
        lemma_digits_grow(t, d, i, j - 1);
        assert(is_digit(t[j - 1]));
    }
}

/// The unsigned decimal number `text[s..e]`, where it is at most `max`.
pub fn parse_number(text: &[u8], s: usize, e: usize, max: u64) -> (r: Option<u64>)
    requires
        s <= e <= text@.len(),
    ensures
        r.is_some() == bounded_number(text@, s as int, e as int, max as nat).is_some(),
        r matches Some(v) ==> v as nat == bounded_number(text@, s as int, e as int, max as nat)->0,
{
    let ghost t = text@;
    let d = if s < e && text[s] == 43 {
        s + 1
    } else {
        s
    };
    if d >= e {
        return None;
    }
    let mut acc: u64 = 0;
    let mut i = d;
    while i < e
        invariant
            t == text@,
            s <= d <= i <= e <= t.len(),
            d as int == (if s < e && t[s as int] == 43 { s + 1 } else { s as int }),
            d < e,
            all_digits(t, d as int, i as int),
            acc as nat == digits_value(t, d as int, i as int),
            acc <= max,
        decreases e - i,
    {
        let c = text[i];
        if c < 48 || c > 57 {
            proof {
                assert(!is_digit(t[i as int]));
            }
            return None;
        }
        let dig: u64 = (c - 48) as u64;
        if dig > max || acc > (max - dig) / 10 {
            proof {
                assert(acc * 10 + dig > max) by (nonlinear_arith)
                    requires
                        dig > max || acc > (max - dig) / 10,
                        dig <= 9,
                ;
                assert(digits_value(t, d as int, i + 1) == acc * 10 + dig);
                if all_digits(t, d as int, e as int) {
                    lemma_digits_grow(t, d as int, i + 1, e as int);
                }
            }
            return None;
        }
        proof {
            assert(acc * 10 + dig <= max) by (nonlinear_arith)
                requires
                    acc <= (max - dig) / 10,
                    dig <= max,
            ;
        }
        acc = acc * 10 + dig;
        i = i + 1;
    }
    Some(acc)
}

} // verus!
