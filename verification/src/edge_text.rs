//! Edge lists in text form: a header line, then one edge per line, given by
//! the first two whitespace-separated numbers of the line.
//!
//! The text is UTF-8, read as bytes. Lines end at `'\n'`; tokens are
//! separated by whitespace in the sense of `char::is_whitespace`: the six
//! ASCII spaces (tab, line feed, vertical tab, form feed, carriage return,
//! space) and the multi-byte spaces such as U+00A0, so a `'\r'` before a
//! line break is skipped like any other space. A number is what `usize::from_str` accepts: an
//! optional `'+'`, then decimal digits, at most `usize::MAX`.
use crate::graph::{edge_list_graph, lemma_max_endpoint_below, Graph};
use vstd::prelude::*;

verus! {

/// ASCII whitespace.
pub open spec fn is_space(b: u8) -> bool {
    b == 9 || b == 10 || b == 11 || b == 12 || b == 13 || b == 32
}

/// The length of the first line of `t`, up to its `'\n'` or the end.
pub open spec fn line_len(t: Seq<u8>) -> nat
    decreases t.len(),
{
    if t.len() == 0 || t[0] == 10 {
        0
    } else {
        1 + line_len(t.drop_first())
    }
}

/// The lines of `t`; text after a final `'\n'` makes no empty last line.
pub open spec fn text_lines(t: Seq<u8>) -> Seq<Seq<u8>>
    decreases t.len(),
{
    if t.len() == 0 {
        Seq::empty()
    } else {
        let e = line_len(t) as int;
        if e < t.len() {
            seq![t.take(e)] + text_lines(t.skip(e + 1))
        } else {
            seq![t]
        }
    }
}

/// A byte that can begin a whitespace character: an ASCII space, or the
/// first byte of one of the multi-byte spaces below.
pub open spec fn may_start_space(b: u8) -> bool {
    is_space(b) || b == 0xC2 || b == 0xE1 || b == 0xE2 || b == 0xE3
}

/// The length in bytes of the whitespace character (in the sense of
/// `char::is_whitespace`) that the UTF-8 text `t` starts with, 0 if it does
/// not start with one: the six ASCII spaces, U+0085, U+00A0, U+1680,
/// U+2000 to U+200A, U+2028, U+2029, U+202F, U+205F and U+3000.
pub open spec fn space_width(t: Seq<u8>) -> nat {
    if t.len() >= 1 && is_space(t[0]) {
        1
    } else if t.len() >= 2 && t[0] == 0xC2 && (t[1] == 0x85 || t[1] == 0xA0) {
        2
    } else if t.len() >= 3 && ((t[0] == 0xE1 && t[1] == 0x9A && t[2] == 0x80) || (t[0] == 0xE2
        && t[1] == 0x80 && ((0x80 <= t[2] && t[2] <= 0x8A) || t[2] == 0xA8 || t[2] == 0xA9 || t[2]
        == 0xAF)) || (t[0] == 0xE2 && t[1] == 0x81 && t[2] == 0x9F) || (t[0] == 0xE3 && t[1] == 0x80
        && t[2] == 0x80)) {
        3
    } else {
        0
    }
}

/// The number of bytes of the whitespace characters that `t` starts with.
pub open spec fn space_len(t: Seq<u8>) -> nat
    decreases t.len(),
{
    let w = space_width(t);
    if w == 0 || w > t.len() {
        0
    } else {
        w + space_len(t.skip(w as int))
    }
}

/// The number of bytes that `t` starts with before its first whitespace
/// character.
pub open spec fn word_len(t: Seq<u8>) -> nat
    decreases t.len(),
{
    if t.len() == 0 || space_width(t) > 0 {
        0
    } else {
        1 + word_len(t.drop_first())
    }
}

/// The first whitespace-separated token of `t` and the text after it, or
/// `None` when `t` holds only whitespace.
pub open spec fn next_token(t: Seq<u8>) -> Option<(Seq<u8>, Seq<u8>)> {
    let s = space_len(t) as int;
    if s >= t.len() {
        None
    } else {
        let w = word_len(t.skip(s)) as int;
        Some((t.skip(s).take(w), t.skip(s + w)))
    }
}

/// The value of a string of decimal digits.
pub open spec fn digits_value(d: Seq<u8>) -> nat
    decreases d.len(),
{
    if d.len() == 0 {
        0
    } else {
        digits_value(d.drop_last()) * 10 + (d.last() - 48) as nat
    }
}

/// Every byte of `d` is a decimal digit.
pub open spec fn all_digits(d: Seq<u8>) -> bool {
    forall|i: int| 0 <= i < d.len() ==> 48 <= #[trigger] d[i] <= 57
}

/// The number that a nonempty string of decimal digits stands for, if it
/// is one and fits in `usize`.
pub open spec fn digits_number(d: Seq<u8>) -> Option<usize> {
    if d.len() > 0 && all_digits(d) && digits_value(d) <= usize::MAX {
        Some(digits_value(d) as usize)
    } else {
        None
    }
}

/// The number that `usize::from_str` reads from the token `t`.
pub open spec fn parse_number(t: Seq<u8>) -> Option<usize> {
    if t.len() > 0 && t[0] == 43 {
        digits_number(t.drop_first())
    } else {
        digits_number(t)
    }
}

/// The first two numbers of a line, if it has two tokens and both are
/// numbers.
pub open spec fn line_pair(l: Seq<u8>) -> Option<(usize, usize)> {
    match next_token(l) {
        Some((a, rest)) => match next_token(rest) {
            Some((b, _)) => match (parse_number(a), parse_number(b)) {
                (Some(x), Some(y)) => Some((x, y)),
                _ => None,
            },
            None => None,
        },
        None => None,
    }
}

/// The lines after the first.
pub open spec fn body_lines(t: Seq<u8>) -> Seq<Seq<u8>> {
    let ls = text_lines(t);
    if ls.len() == 0 {
        ls
    } else {
        ls.drop_first()
    }
}

/// The pairs of the lines that have one, in order.
pub open spec fn readable_pairs(ls: Seq<Seq<u8>>) -> Seq<(usize, usize)>
    decreases ls.len(),
{
    if ls.len() == 0 {
        Seq::empty()
    } else {
        let rest = readable_pairs(ls.drop_last());
        match line_pair(ls.last()) {
            Some(p) => rest.push(p),
            None => rest,
        }
    }
}

/// Every line has a pair, both numbers at least 1; the pairs counted from
/// 0, or `None` if a line has none.
pub open spec fn one_based_pairs(ls: Seq<Seq<u8>>) -> Option<Seq<(usize, usize)>>
    decreases ls.len(),
{
    if ls.len() == 0 {
        Some(Seq::empty())
    } else {
        match (one_based_pairs(ls.drop_last()), line_pair(ls.last())) {
            (Some(rest), Some((a, b))) => if a >= 1 && b >= 1 {
                Some(rest.push(((a - 1) as usize, (b - 1) as usize)))
            } else {
                None
            },
            _ => None,
        }
    }
}

pub(crate) proof fn lemma_line_len(t: Seq<u8>, i: int)
    requires
        0 <= i <= t.len(),
        forall|k: int| 0 <= k < i ==> t[k] != 10,
        i == t.len() || t[i] == 10,
    ensures
        line_len(t) == i,
    decreases i,
{
    if i > 0 {
        lemma_line_len(t.drop_first(), i - 1);
    }
}

/// A text that starts with `i` ASCII spaces and then a byte that begins no
/// whitespace character has `i` bytes of leading whitespace.
pub(crate) proof fn lemma_space_len(t: Seq<u8>, i: int)
    requires
        0 <= i <= t.len(),
        forall|k: int| 0 <= k < i ==> is_space(t[k]),
        i == t.len() || !may_start_space(t[i]),
    ensures
        space_len(t) == i,
    decreases i,
{
    if i > 0 {
        assert(t.skip(1) =~= t.drop_first());
        lemma_space_len(t.drop_first(), i - 1);
    }
}

/// A text that starts with `i` bytes that begin no whitespace character and
/// then an ASCII space has a first word of `i` bytes.
pub(crate) proof fn lemma_word_len(t: Seq<u8>, i: int)
    requires
        0 <= i <= t.len(),
        forall|k: int| 0 <= k < i ==> !may_start_space(t[k]),
        i == t.len() || is_space(t[i]),
    ensures
        word_len(t) == i,
    decreases i,
{
    if i > 0 {
        lemma_word_len(t.drop_first(), i - 1);
    }
}

/// A string of digits is worth at least each of its prefixes.
pub(crate) proof fn lemma_digits_prefix(d: Seq<u8>, k: int)
    requires
        0 <= k <= d.len(),
        all_digits(d),
    ensures
        digits_value(d.take(k)) <= digits_value(d),
    decreases d.len(),
{
    if k < d.len() {
        assert(d.drop_last().take(k) =~= d.take(k));
        lemma_digits_prefix(d.drop_last(), k);
    } else {
        assert(d.take(k) =~= d);
    }
}

/// The end of the line that starts at `start`.
fn line_end(text: &[u8], start: usize) -> (e: usize)
    requires
        start <= text@.len(),
    ensures
        start <= e <= text@.len(),
        line_len(text@.skip(start as int)) == e - start,
{
    let mut i = start;
    while i < text.len() && text[i] != 10
        invariant
            start <= i <= text@.len(),
            forall|k: int| start <= k < i ==> text@[k] != 10,
        decreases text.len() - i,
    {
        i = i + 1;
    }
    proof {
        lemma_line_len(text@.skip(start as int), i - start);
    }
    i
}

/// The bounds of the first token of `text[start..end]`, or `None` if that
/// holds only whitespace.
fn token_at(text: &[u8], start: usize, end: usize) -> (r: Option<(usize, usize)>)
    requires
        start <= end <= text@.len(),
    ensures
        match (r, next_token(text@.subrange(start as int, end as int))) {
            (Some((a, b)), Some((tok, rest))) => start <= a <= b <= end && tok == text@.subrange(
                a as int,
                b as int,
            ) && rest == text@.subrange(b as int, end as int),
            (None, None) => true,
            _ => false,
        },
{
    let ghost l = text@.subrange(start as int, end as int);
    let mut i = start;
    assert(l.skip(0) =~= l);
    while i < end && space_width_at(text, i, end) > 0
        invariant
            start <= i <= end <= text@.len(),
            l == text@.subrange(start as int, end as int),
            space_len(l) == (i - start) + space_len(l.skip(i - start)),
        decreases end - i,
    {
        let w = space_width_at(text, i, end);
        proof {
            let x = l.skip(i - start);
            assert(x =~= text@.subrange(i as int, end as int));
            assert(x.skip(w as int) =~= l.skip(i - start + w));
        }
        i = i + w;
    }
    proof {
        let x = l.skip(i - start);
        assert(x =~= text@.subrange(i as int, end as int));
    }
    if i == end {
        return None;
    }
    let ghost w0 = l.skip(i - start);
    let mut j = i;
    assert(w0.skip(0) =~= w0);
    assert(w0 =~= text@.subrange(i as int, end as int));
    while j < end && space_width_at(text, j, end) == 0
        invariant
            i <= j <= end <= text@.len(),
            w0 == text@.subrange(i as int, end as int),
            word_len(w0) == (j - i) + word_len(w0.skip(j - i)),
        decreases end - j,
    {
        proof {
            let x = w0.skip(j - i);
            assert(x =~= text@.subrange(j as int, end as int));
            assert(x.drop_first() =~= w0.skip(j - i + 1));
        }
        j = j + 1;
    }
    proof {
        assert(w0.skip(j - i) =~= text@.subrange(j as int, end as int));
        assert(w0.take(j - i) =~= text@.subrange(i as int, j as int));
        assert(l.skip(j - start) =~= text@.subrange(j as int, end as int));
    }
    Some((i, j))
}

/// The length of the whitespace character that `text[i..end]` starts with.
fn space_width_at(text: &[u8], i: usize, end: usize) -> (w: usize)
    requires
        i < end <= text@.len(),
    ensures
        w == space_width(text@.subrange(i as int, end as int)),
        w <= end - i,
{
    let ghost t = text@.subrange(i as int, end as int);
    let n = end - i;
    let b0 = text[i];
    if b0 == 9 || b0 == 10 || b0 == 11 || b0 == 12 || b0 == 13 || b0 == 32 {
        return 1;
    }
    if n >= 2 && b0 == 0xC2 && (text[i + 1] == 0x85 || text[i + 1] == 0xA0) {
        return 2;
    }
    if n >= 3 {
        let b1 = text[i + 1];
        let b2 = text[i + 2];
        if (b0 == 0xE1 && b1 == 0x9A && b2 == 0x80) || (b0 == 0xE2 && b1 == 0x80 && ((0x80 <= b2
            && b2 <= 0x8A) || b2 == 0xA8 || b2 == 0xA9 || b2 == 0xAF)) || (b0 == 0xE2 && b1 == 0x81
            && b2 == 0x9F) || (b0 == 0xE3 && b1 == 0x80 && b2 == 0x80) {
            return 3;
        }
    }
    0
}

/// The number of the token `text[a..b]`, as `usize::from_str` reads it.
fn parse_at(text: &[u8], a: usize, b: usize) -> (r: Option<usize>)
    requires
        a <= b <= text@.len(),
    ensures
        r == parse_number(text@.subrange(a as int, b as int)),
{
    let ghost t = text@.subrange(a as int, b as int);
    let mut i = a;
    if i < b && text[i] == 43 {
        i = i + 1;
    }
    let ghost d = text@.subrange(i as int, b as int);
    proof {
        if t.len() > 0 && t[0] == 43 {
            assert(t.drop_first() =~= d);
        } else {
            assert(t =~= d);
        }
    }
    if i == b {
        return None;
    }
    let mut value: usize = 0;
    let mut k = i;
    while k < b
        invariant
            i <= k <= b <= text@.len(),
            d == text@.subrange(i as int, b as int),
            parse_number(text@.subrange(a as int, b as int)) == digits_number(d),
            forall|s: int| 0 <= s < k - i ==> 48 <= #[trigger] d[s] <= 57,
            value == digits_value(d.take(k - i)),
        decreases b - k,
    {
        let c = text[k];
        if c < 48 || c > 57 {
            proof {
                assert(d[k - i] == c);
                assert(!all_digits(d));
            }
            return None;
        }
        proof {
            assert(d.take(k - i + 1).drop_last() =~= d.take(k - i));
            assert(d.take(k - i + 1).last() == c);
        }
        if value > (usize::MAX - (c - 48) as usize) / 10 {
            proof {
                assert(value * 10 + (c - 48) > usize::MAX) by (nonlinear_arith)
                    requires
                        value > (usize::MAX - (c - 48) as usize) / 10,
                        c >= 48,
                        c <= 57,
                ;
                let x = d.take(k - i + 1);
                assert(x.drop_last() =~= d.take(k - i));
                assert(x.last() == c);
                assert(digits_value(x) == value * 10 + (c - 48));
                if all_digits(d) {
                    lemma_digits_prefix(d, k - i + 1);
                    assert(digits_value(d) > usize::MAX);
                }
            }
            return None;
        }
        proof {
            assert(value * 10 + (c - 48) <= usize::MAX) by (nonlinear_arith)
                requires
                    value <= (usize::MAX - (c - 48) as usize) / 10,
                    c >= 48,
                    c <= 57,
            ;
        }
        value = value * 10 + (c - 48) as usize;
        k = k + 1;
    }
    proof {
        assert(d.take(d.len() as int) =~= d);
    }
    Some(value)
}

/// The pair of the line `text[start..end]`.
fn pair_at(text: &[u8], start: usize, end: usize) -> (r: Option<(usize, usize)>)
    requires
        start <= end <= text@.len(),
    ensures
        r == line_pair(text@.subrange(start as int, end as int)),
{
    match token_at(text, start, end) {
        None => None,
        Some((a0, a1)) => match token_at(text, a1, end) {
            None => None,
            Some((b0, b1)) => {
                let x = parse_at(text, a0, a1);
                let y = parse_at(text, b0, b1);
                match (x, y) {
                    (Some(x), Some(y)) => Some((x, y)),
                    _ => None,
                }
            },
        },
    }
}

/// The lines of `text` from position `p` on are the lines after those
/// already passed.
proof fn lemma_lines_step(t: Seq<u8>, p: int, e: int)
    requires
        0 <= p < t.len(),
        p <= e <= t.len(),
        line_len(t.skip(p)) == e - p,
    ensures
        text_lines(t.skip(p)) == seq![t.subrange(p, e)] + (if e < t.len() {
            text_lines(t.skip(e + 1))
        } else {
            Seq::empty()
        }),
{
    let s = t.skip(p);
    assert(s.take(e - p) =~= t.subrange(p, e));
    if e < t.len() {
        assert(s.skip(e - p + 1) =~= t.skip(e + 1));
    } else {
        assert(s =~= t.subrange(p, e));
        assert(seq![s] + Seq::<Seq<u8>>::empty() =~= seq![s]);
    }
}

/// The edges of an edge-list text: for each line after the header that
/// starts with two numbers, those two numbers; other lines are passed over.
pub fn read_edge_list_text(text: &[u8]) -> (r: Vec<(usize, usize)>)
    ensures
        r@ == readable_pairs(body_lines(text@)),
{
    let n = text.len();
    let mut r: Vec<(usize, usize)> = Vec::new();
    if n == 0 {
        return r;
    }
    let first = line_end(text, 0);
    proof {
        lemma_lines_step(text@, 0, first as int);
        assert(text@.skip(0) =~= text@);
    }
    if first == n {
        return r;
    }
    let mut p = first + 1;
    let ghost mut done: Seq<Seq<u8>> = Seq::empty();
    proof {
        assert(body_lines(text@) =~= done + text_lines(text@.skip(p as int)));
    }
    while p < n
        invariant
            n == text@.len(),
            0 < p <= n,
            body_lines(text@) == done + text_lines(text@.skip(p as int)),
            r@ == readable_pairs(done),
        decreases n - p,
    {
        let e = line_end(text, p);
        proof {
            lemma_lines_step(text@, p as int, e as int);
        }
        let pair = pair_at(text, p, e);
        let ghost line = text@.subrange(p as int, e as int);
        proof {
            assert((done.push(line)).drop_last() =~= done);
            assert(done + text_lines(text@.skip(p as int)) =~= done.push(line) + (if e < n {
                text_lines(text@.skip(e + 1))
            } else {
                Seq::empty()
            }));
            done = done.push(line);
        }
        match pair {
            Some(x) => r.push(x),
            None => {},
        }
        if e == n {
            proof {
                assert(body_lines(text@) =~= done);
                assert(text_lines(text@.skip(n as int)) =~= Seq::<Seq<u8>>::empty()) by {
                    assert(text@.skip(n as int).len() == 0);
                }
            }
            p = n;
        } else {
            p = e + 1;
        }
    }
    proof {
        assert(text@.skip(p as int).len() == 0);
        assert(done + text_lines(text@.skip(p as int)) =~= done);
    }
    r
}

/// The edges of a PACE text: every line after the header holds two
/// numbers of at least 1, the nodes counted from 1; the edges counted from
/// 0. `None` if a line does not.
pub fn pace_edges(text: &[u8]) -> (r: Option<Vec<(usize, usize)>>)
    ensures
        match (r, one_based_pairs(body_lines(text@))) {
            (Some(v), Some(s)) => v@ == s,
            (None, None) => true,
            _ => false,
        },
{
    let n = text.len();
    let mut r: Vec<(usize, usize)> = Vec::new();
    if n == 0 {
        return Some(r);
    }
    let first = line_end(text, 0);
    proof {
        lemma_lines_step(text@, 0, first as int);
        assert(text@.skip(0) =~= text@);
    }
    if first == n {
        return Some(r);
    }
    let mut p = first + 1;
    let ghost mut done: Seq<Seq<u8>> = Seq::empty();
    proof {
        assert(body_lines(text@) =~= done + text_lines(text@.skip(p as int)));
    }
    while p < n
        invariant
            n == text@.len(),
            0 < p <= n,
            body_lines(text@) == done + text_lines(text@.skip(p as int)),
            one_based_pairs(done) == Some(r@),
        decreases n - p,
    {
        let e = line_end(text, p);
        proof {
            lemma_lines_step(text@, p as int, e as int);
        }
        let pair = pair_at(text, p, e);
        let ghost line = text@.subrange(p as int, e as int);
        let ghost before = done;
        proof {
            let later = if e < n {
                text_lines(text@.skip(e + 1))
            } else {
                Seq::empty()
            };
            assert((done.push(line)).drop_last() =~= done);
            assert(done + text_lines(text@.skip(p as int)) =~= done.push(line) + later);
            done = done.push(line);
            assert((done + later).take(done.len() as int) =~= done);
        }
        match pair {
            Some((a, b)) => {
                if a == 0 || b == 0 {
                    proof {
                        lemma_one_based_none(body_lines(text@), done);
                    }
                    return None;
                }
                r.push((a - 1, b - 1));
            },
            None => {
                proof {
                    lemma_one_based_none(body_lines(text@), done);
                }
                return None;
            },
        }
        if e == n {
            proof {
                assert(text_lines(text@.skip(n as int)) =~= Seq::<Seq<u8>>::empty()) by {
                    assert(text@.skip(n as int).len() == 0);
                }
            }
            p = n;
        } else {
            p = e + 1;
        }
    }
    proof {
        assert(text@.skip(p as int).len() == 0);
        assert(done + text_lines(text@.skip(p as int)) =~= done);
    }
    Some(r)
}

/// A prefix without one-based pairs leaves the whole list without them.
proof fn lemma_one_based_none(ls: Seq<Seq<u8>>, pre: Seq<Seq<u8>>)
    requires
        pre.len() <= ls.len(),
        pre == ls.take(pre.len() as int),
        one_based_pairs(pre) is None,
    ensures
        one_based_pairs(ls) is None,
    decreases ls.len() - pre.len(),
{
    if pre.len() < ls.len() {
        let next = ls.take(pre.len() as int + 1);
        assert(next.drop_last() =~= pre);
        lemma_one_based_none(ls, next);
    } else {
        assert(ls =~= pre);
    }
}

impl Graph {
    /// The graph of a PACE text (see [`pace_edges`]), built as
    /// `from_edge_list` builds it; `None` if a line after the header does
    /// not hold two numbers of at least 1.
    pub fn from_pace_text(text: &[u8]) -> (r: Option<Graph>)
        ensures
            match (r, one_based_pairs(body_lines(text@))) {
                (Some(g), Some(s)) => g@ == edge_list_graph(s),
                (None, None) => true,
                _ => false,
            },
    {
        match pace_edges(text) {
            None => None,
            Some(edges) => {
                proof {
                    lemma_one_based_below(body_lines(text@));
                    lemma_max_endpoint_below(edges@, usize::MAX);
                }
                Some(Graph::from_edge_list(edges))
            },
        }
    }
}

/// Ids that were counted down by one stay below `usize::MAX`.
proof fn lemma_one_based_below(ls: Seq<Seq<u8>>)
    ensures
        one_based_pairs(ls) matches Some(s) ==> forall|t: int|
            0 <= t < s.len() ==> (#[trigger] s[t]).0 < usize::MAX && s[t].1 < usize::MAX,
    decreases ls.len(),
{
    if ls.len() > 0 {
        lemma_one_based_below(ls.drop_last());
    }
}

} // verus!
