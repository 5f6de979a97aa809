//! Scanning text as characters: lines, whitespace (Unicode `White_Space`, as
//! `char::is_whitespace`), words, and decimal numbers as `str::parse` reads them.
//! Pieces of the text are index ranges into its characters.
use vstd::prelude::*;

verus! {

broadcast use vstd::string::axiom_spec_iter;

/// Unicode white space (the characters for which `char::is_whitespace` holds).
pub open spec fn is_ws(c: char) -> bool {
    let u = c as u32;
    ||| 0x09 <= u <= 0x0d
    ||| u == 0x20
    ||| u == 0x85
    ||| u == 0xa0
    ||| u == 0x1680
    ||| 0x2000 <= u <= 0x200a
    ||| u == 0x2028
    ||| u == 0x2029
    ||| u == 0x202f
    ||| u == 0x205f
    ||| u == 0x3000
}

pub fn is_whitespace_char(c: char) -> (r: bool)
    ensures
        r == is_ws(c),
{
    let u = c as u32;
    (0x09 <= u && u <= 0x0d) || u == 0x20 || u == 0x85 || u == 0xa0 || u == 0x1680
        || (0x2000 <= u && u <= 0x200a) || u == 0x2028 || u == 0x2029 || u == 0x202f || u == 0x205f
        || u == 0x3000
}

/// The characters of a string.
pub fn chars_of(text: &str) -> (r: Vec<char>)
    ensures
        r@ == text@,
{
    let mut out: Vec<char> = Vec::new();
    for c in it: text.chars()
        invariant
            out@ == it.seq().take(it.index() as int),
            it.seq() == text@,
    {
        out.push(c);
    }
    out
}

/// The first position at or after `i` (below `e`) that is not white space, or `e`.
pub open spec fn skip_ws(t: Seq<char>, i: int, e: int) -> int
    decreases e - i,
{
    if i >= e {
        e
    } else if is_ws(t[i]) {
        skip_ws(t, i + 1, e)
    } else {
        i
    }
}

/// The end of `[i, e)` without its trailing white space.
pub open spec fn trim_end(t: Seq<char>, i: int, e: int) -> int
    decreases e - i,
{
    if e <= i {
        i
    } else if is_ws(t[e - 1]) {
        trim_end(t, i, e - 1)
    } else {
        e
    }
}

/// `[i, e)` without leading and trailing white space.
pub open spec fn trimmed(t: Seq<char>, i: int, e: int) -> (int, int) {
    let s = skip_ws(t, i, e);
    (s, trim_end(t, s, e))
}

/// The words of `[i, e)` (maximal runs without white space), `open` being the
/// start of a word begun before `i`, or -1.
pub open spec fn words_from(t: Seq<char>, i: int, e: int, open: int) -> Seq<(int, int)>
    decreases e - i,
{
    if i >= e {
        if open >= 0 { seq![(open, e)] } else { seq![] }
    } else if is_ws(t[i]) {
        if open >= 0 { seq![(open, i)] + words_from(t, i + 1, e, -1) } else { words_from(t, i + 1, e, -1) }
    } else {
        words_from(t, i + 1, e, if open >= 0 { open } else { i })
    }
}

/// The words of `[i, e)`.
pub open spec fn words(t: Seq<char>, i: int, e: int) -> Seq<(int, int)> {
    words_from(t, i, e, -1)
}

/// The pieces of `[i, e)` between occurrences of `sep`, the current one begun at `start`.
pub open spec fn pieces_from(t: Seq<char>, i: int, e: int, start: int, sep: char) -> Seq<(int, int)>
    decreases e - i,
{
    if i >= e {
        seq![(start, e)]
    } else if t[i] == sep {
        seq![(start, i)] + pieces_from(t, i + 1, e, i + 1, sep)
    } else {
        pieces_from(t, i + 1, e, start, sep)
    }
}

/// The lines of the text (a final newline ends the last line).
pub open spec fn lines_from(t: Seq<char>, i: int, start: int) -> Seq<(int, int)>
    decreases t.len() - i,
{
    if i >= t.len() {
        if start < t.len() { seq![(start, t.len() as int)] } else { seq![] }
    } else if t[i] == '\n' {
        seq![(start, i)] + lines_from(t, i + 1, i + 1)
    } else {
        lines_from(t, i + 1, start)
    }
}

/// A line that holds something: not blank, and not a comment (`#` first).
pub open spec fn significant(t: Seq<char>, r: (int, int)) -> bool {
    r.0 < r.1 && t[r.0] != '#'
}

/// The trimmed significant lines among `ls`, in order.
pub open spec fn significant_lines(t: Seq<char>, ls: Seq<(int, int)>) -> Seq<(int, int)>
    decreases ls.len(),
{
    if ls.len() == 0 {
        seq![]
    } else {
        let rest = significant_lines(t, ls.drop_last());
        let r = trimmed(t, ls.last().0, ls.last().1);
        if significant(t, r) { rest.push(r) } else { rest }
    }
}

/// The text's trimmed significant lines.
pub open spec fn text_lines(t: Seq<char>) -> Seq<(int, int)> {
    significant_lines(t, lines_from(t, 0, 0))
}

/// `[a, b)` holds the characters `lit`.
pub open spec fn is_text(t: Seq<char>, a: int, b: int, lit: Seq<char>) -> bool {
    0 <= a <= b <= t.len() && t.subrange(a, b) == lit
}

/// `[a, b)` begins with `lit`.
pub open spec fn starts_with(t: Seq<char>, a: int, b: int, lit: Seq<char>) -> bool {
    b - a >= lit.len() && is_text(t, a, a + lit.len(), lit)
}

/// The value of the decimal digits `[a, b)`.
pub open spec fn digits_value(t: Seq<char>, a: int, b: int) -> nat
    decreases b - a,
{
    if b <= a {
        0
    } else {
        digits_value(t, a, b - 1) * 10 + ((t[b - 1] as u32) - ('0' as u32)) as nat
    }
}

/// `[a, b)` is a non-empty run of ASCII digits.
pub open spec fn all_digits(t: Seq<char>, a: int, b: int) -> bool {
    a < b && forall|k: int| a <= k < b ==> '0' <= #[trigger] t[k] <= '9'
}

/// `[a, b)` read as a `u32` (an optional `+`, then digits).
pub open spec fn parse_u32(t: Seq<char>, a: int, b: int) -> Option<u32> {
    let s = if a < b && t[a] == '+' { a + 1 } else { a };
    if all_digits(t, s, b) && digits_value(t, s, b) <= u32::MAX {
        Some(digits_value(t, s, b) as u32)
    } else {
        None
    }
}

/// `[a, b)` read as a `u128` (an optional `+`, then digits).
pub open spec fn parse_u128(t: Seq<char>, a: int, b: int) -> Option<u128> {
    let s = if a < b && t[a] == '+' { a + 1 } else { a };
    if all_digits(t, s, b) && digits_value(t, s, b) <= u128::MAX {
        Some(digits_value(t, s, b) as u128)
    } else {
        None
    }
}

/// `[a, b)` read as an `i64` (an optional sign, then digits).
pub open spec fn parse_i64(t: Seq<char>, a: int, b: int) -> Option<i64> {
    let neg = a < b && t[a] == '-';
    let s = if a < b && (t[a] == '+' || t[a] == '-') { a + 1 } else { a };
    if !all_digits(t, s, b) {
        None
    } else if neg {
        if digits_value(t, s, b) <= 0x8000_0000_0000_0000 { Some((0 - digits_value(t, s, b)) as i64) } else { None }
    } else {
        if digits_value(t, s, b) <= i64::MAX { Some(digits_value(t, s, b) as i64) } else { None }
    }
}

proof fn lemma_digits_grow(t: Seq<char>, a: int, b: int, c: int)
    requires
        a <= b <= c,
        forall|k: int| a <= k < c ==> '0' <= #[trigger] t[k] <= '9',
    ensures
        digits_value(t, a, b) <= digits_value(t, a, c),
    decreases c - b,
{
    if b < c {
        lemma_digits_grow(t, a, b, c - 1);
        assert('0' <= t[c - 1] <= '9');
    }
}

// ---------------------------------------------------------------------------
// Executed.

/// The first position at or after `i` that is not white space, or `e`.
pub fn skip_whitespace(t: &Vec<char>, i: usize, e: usize) -> (r: usize)
    requires
        i <= e <= t@.len(),
    ensures
        r == skip_ws(t@, i as int, e as int),
        i <= r <= e,
{
    let mut j = i;
    while j < e && is_whitespace_char(t[j])
        invariant
            i <= j <= e <= t@.len(),
            skip_ws(t@, i as int, e as int) == skip_ws(t@, j as int, e as int),
        decreases e - j,
    {
        j += 1;
    }
    j
}

/// The range without white space at either end.
pub fn trim_range(t: &Vec<char>, i: usize, e: usize) -> (r: (usize, usize))
    requires
        i <= e <= t@.len(),
    ensures
        r.0 as int == trimmed(t@, i as int, e as int).0,
        r.1 as int == trimmed(t@, i as int, e as int).1,
        i <= r.0 <= r.1 <= e,
{
    let s = skip_whitespace(t, i, e);
    let mut k = e;
    while k > s && is_whitespace_char(t[k - 1])
        invariant
            s <= k <= e <= t@.len(),
            trim_end(t@, s as int, e as int) == trim_end(t@, s as int, k as int),
        decreases k,
    {
        k -= 1;
    }
    (s, k)
}

/// The words of `[i, e)`.
pub fn split_words(t: &Vec<char>, i: usize, e: usize) -> (r: Vec<(usize, usize)>)
    requires
        i <= e <= t@.len(),
    ensures
        r@.len() == words(t@, i as int, e as int).len(),
        forall|k: int| 0 <= k < r@.len() ==> (#[trigger] r@[k]).0 as int == words(t@, i as int, e as int)[k].0
            && r@[k].1 as int == words(t@, i as int, e as int)[k].1,
        forall|k: int| 0 <= k < r@.len() ==> i <= (#[trigger] r@[k]).0 < r@[k].1 <= e,
{
    let ghost w = words(t@, i as int, e as int);
    let mut out: Vec<(usize, usize)> = Vec::new();
    let mut open: Option<usize> = None;
    let mut j = i;
    while j < e
        invariant
            i <= j <= e <= t@.len(),
            w == out@.map_values(|p: (usize, usize)| (p.0 as int, p.1 as int))
                + words_from(t@, j as int, e as int, match open { Some(o) => o as int, None => -1 }),
            forall|k: int| 0 <= k < out@.len() ==> i <= (#[trigger] out@[k]).0 < out@[k].1 <= j,
            match open { Some(o) => i <= o < j, None => true },
            forall|k: int| 0 <= k < out@.len() ==> (#[trigger] out@[k]).1 <= match open { Some(o) => o as int, None => j as int },
        decreases e - j,
    {
        let ghost before = out@;
        if is_whitespace_char(t[j]) {
            if let Some(o) = open {
                out.push((o, j));
                assert(out@.map_values(|p: (usize, usize)| (p.0 as int, p.1 as int))
                    =~= before.map_values(|p: (usize, usize)| (p.0 as int, p.1 as int)) + seq![(o as int, j as int)]);
            }
            open = None;
        } else if open.is_none() {
            open = Some(j);
        }
        j += 1;
    }
    if let Some(o) = open {
        let ghost before = out@;
        out.push((o, e));
        assert(out@.map_values(|p: (usize, usize)| (p.0 as int, p.1 as int))
            =~= before.map_values(|p: (usize, usize)| (p.0 as int, p.1 as int)) + seq![(o as int, e as int)]);
    }
    assert(w =~= out@.map_values(|p: (usize, usize)| (p.0 as int, p.1 as int)));
    assert forall|k: int| 0 <= k < out@.len() implies (#[trigger] out@[k]).0 as int == w[k].0 && out@[k].1 as int == w[k].1 by {
        assert(out@.map_values(|p: (usize, usize)| (p.0 as int, p.1 as int))[k] == (out@[k].0 as int, out@[k].1 as int));
    }
    out
}

/// The pieces of `[i, e)` between occurrences of `sep`.
pub fn split_pieces(t: &Vec<char>, i: usize, e: usize, sep: char) -> (r: Vec<(usize, usize)>)
    requires
        i <= e <= t@.len(),
    ensures
        r@.len() == pieces_from(t@, i as int, e as int, i as int, sep).len(),
        forall|k: int| 0 <= k < r@.len() ==> (#[trigger] r@[k]).0 as int == pieces_from(t@, i as int, e as int, i as int, sep)[k].0
            && r@[k].1 as int == pieces_from(t@, i as int, e as int, i as int, sep)[k].1,
        forall|k: int| 0 <= k < r@.len() ==> i <= (#[trigger] r@[k]).0 <= r@[k].1 <= e,
{
    let ghost w = pieces_from(t@, i as int, e as int, i as int, sep);
    let mut out: Vec<(usize, usize)> = Vec::new();
    let mut start = i;
    let mut j = i;
    while j < e
        invariant
            i <= start <= j <= e <= t@.len(),
            w == out@.map_values(|p: (usize, usize)| (p.0 as int, p.1 as int))
                + pieces_from(t@, j as int, e as int, start as int, sep),
            forall|k: int| 0 <= k < out@.len() ==> i <= (#[trigger] out@[k]).0 <= out@[k].1 <= start,
        decreases e - j,
    {
        if t[j] == sep {
            let ghost before = out@;
            out.push((start, j));
            assert(out@.map_values(|p: (usize, usize)| (p.0 as int, p.1 as int))
                =~= before.map_values(|p: (usize, usize)| (p.0 as int, p.1 as int)) + seq![(start as int, j as int)]);
            start = j + 1;
        }
        j += 1;
    }
    let ghost before = out@;
    out.push((start, e));
    assert(out@.map_values(|p: (usize, usize)| (p.0 as int, p.1 as int))
        =~= before.map_values(|p: (usize, usize)| (p.0 as int, p.1 as int)) + seq![(start as int, e as int)]);
    assert(w =~= out@.map_values(|p: (usize, usize)| (p.0 as int, p.1 as int)));
    assert forall|k: int| 0 <= k < out@.len() implies (#[trigger] out@[k]).0 as int == w[k].0 && out@[k].1 as int == w[k].1 by {
        assert(out@.map_values(|p: (usize, usize)| (p.0 as int, p.1 as int))[k] == (out@[k].0 as int, out@[k].1 as int));
    }
    out
}

/// Appends the trimmed line `[start, j)` when it is significant.
fn push_line(t: &Vec<char>, out: &mut Vec<(usize, usize)>, start: usize, j: usize, Ghost(raw): Ghost<Seq<(int, int)>>)
    requires
        start <= j <= t@.len(),
        old(out)@.map_values(|p: (usize, usize)| (p.0 as int, p.1 as int)) == significant_lines(t@, raw),
        forall|k: int| 0 <= k < old(out)@.len() ==> (#[trigger] old(out)@[k]).0 < old(out)@[k].1 <= t@.len(),
    ensures
        final(out)@.map_values(|p: (usize, usize)| (p.0 as int, p.1 as int))
            == significant_lines(t@, raw.push((start as int, j as int))),
        forall|k: int| 0 <= k < final(out)@.len() ==> (#[trigger] final(out)@[k]).0 < final(out)@[k].1 <= t@.len(),
{
    let ghost before = out@;
    let (a, b) = trim_range(t, start, j);
    let ghost raw2 = raw.push((start as int, j as int));
    assert(raw2.drop_last() =~= raw);
    if a < b && t[a] != '#' {
        out.push((a, b));
        assert(out@.map_values(|p: (usize, usize)| (p.0 as int, p.1 as int))
            =~= before.map_values(|p: (usize, usize)| (p.0 as int, p.1 as int)).push((a as int, b as int)));
    }
}

/// The trimmed significant lines of the text.
pub fn significant_line_ranges(t: &Vec<char>) -> (r: Vec<(usize, usize)>)
    ensures
        r@.len() == text_lines(t@).len(),
        forall|k: int| 0 <= k < r@.len() ==> (#[trigger] r@[k]).0 as int == text_lines(t@)[k].0
            && r@[k].1 as int == text_lines(t@)[k].1,
        forall|k: int| 0 <= k < r@.len() ==> (#[trigger] r@[k]).0 < r@[k].1 <= t@.len(),
{
    let ghost all = lines_from(t@, 0, 0);
    let ghost mut raw: Seq<(int, int)> = seq![];
    let mut out: Vec<(usize, usize)> = Vec::new();
    let mut start: usize = 0;
    let mut j: usize = 0;
    while j < t.len()
        invariant
            start <= j <= t@.len(),
            all == raw + lines_from(t@, j as int, start as int),
            out@.map_values(|p: (usize, usize)| (p.0 as int, p.1 as int)) == significant_lines(t@, raw),
            forall|k: int| 0 <= k < out@.len() ==> (#[trigger] out@[k]).0 < out@[k].1 <= t@.len(),
        decreases t@.len() - j,
    {
        if t[j] == '\n' {
            push_line(t, &mut out, start, j, Ghost(raw));
            proof {
                assert(all =~= raw.push((start as int, j as int)) + lines_from(t@, j + 1, j + 1));
                raw = raw.push((start as int, j as int));
            }
            start = j + 1;
        }
        j += 1;
    }
    if start < t.len() {
        push_line(t, &mut out, start, j, Ghost(raw));
        proof {
            assert(all =~= raw.push((start as int, j as int)));
            raw = raw.push((start as int, j as int));
        }
    } else {
        assert(all =~= raw);
    }
    assert forall|k: int| 0 <= k < out@.len() implies (#[trigger] out@[k]).0 as int == text_lines(t@)[k].0
        && out@[k].1 as int == text_lines(t@)[k].1 by {
        assert(out@.map_values(|p: (usize, usize)| (p.0 as int, p.1 as int))[k] == (out@[k].0 as int, out@[k].1 as int));
    }
    out
}

/// The lines of the text, as ranges.
pub fn line_ranges(t: &Vec<char>) -> (r: Vec<(usize, usize)>)
    ensures
        r@.len() == lines_from(t@, 0, 0).len(),
        forall|k: int| 0 <= k < r@.len() ==> (#[trigger] r@[k]).0 as int == lines_from(t@, 0, 0)[k].0
            && r@[k].1 as int == lines_from(t@, 0, 0)[k].1,
        forall|k: int| 0 <= k < r@.len() ==> (#[trigger] r@[k]).0 <= r@[k].1 <= t@.len(),
{
    let ghost all = lines_from(t@, 0, 0);
    let mut out: Vec<(usize, usize)> = Vec::new();
    let mut start: usize = 0;
    let mut j: usize = 0;
    while j < t.len()
        invariant
            start <= j <= t@.len(),
            all == out@.map_values(|p: (usize, usize)| (p.0 as int, p.1 as int)) + lines_from(t@, j as int, start as int),
            forall|k: int| 0 <= k < out@.len() ==> (#[trigger] out@[k]).0 <= out@[k].1 <= start,
        decreases t@.len() - j,
    {
        if t[j] == '\n' {
            let ghost before = out@;
            out.push((start, j));
            assert(out@.map_values(|p: (usize, usize)| (p.0 as int, p.1 as int))
                =~= before.map_values(|p: (usize, usize)| (p.0 as int, p.1 as int)) + seq![(start as int, j as int)]);
            start = j + 1;
        }
        j += 1;
    }
    if start < t.len() {
        let ghost before = out@;
        out.push((start, j));
        assert(out@.map_values(|p: (usize, usize)| (p.0 as int, p.1 as int))
            =~= before.map_values(|p: (usize, usize)| (p.0 as int, p.1 as int)) + seq![(start as int, j as int)]);
    }
    assert(all =~= out@.map_values(|p: (usize, usize)| (p.0 as int, p.1 as int)));
    assert forall|k: int| 0 <= k < out@.len() implies (#[trigger] out@[k]).0 as int == all[k].0 && out@[k].1 as int == all[k].1 by {
        assert(out@.map_values(|p: (usize, usize)| (p.0 as int, p.1 as int))[k] == (out@[k].0 as int, out@[k].1 as int));
    }
    out
}

/// Whether a string is exactly `lit`.
pub fn str_is(s: &str, lit: &str) -> (r: bool)
    ensures
        r == (s@ == lit@),
{
    let t = chars_of(s);
    let r = text_is(&t, 0, t.len(), lit);
    assert(t@.subrange(0, t@.len() as int) =~= t@);
    r
}

/// Whether `[a, b)` holds exactly the characters of `lit`.
pub fn text_is(t: &Vec<char>, a: usize, b: usize, lit: &str) -> (r: bool)
    requires
        a <= b <= t@.len(),
    ensures
        r == is_text(t@, a as int, b as int, lit@),
{
    let l = chars_of(lit);
    if b - a != l.len() {
        assert(t@.subrange(a as int, b as int).len() != lit@.len());
        return false;
    }
    let mut k: usize = 0;
    while k < l.len()
        invariant
            k <= l@.len(),
            l@ == lit@,
            b - a == l@.len(),
            a <= b <= t@.len(),
            forall|q: int| 0 <= q < k ==> t@.subrange(a as int, b as int)[q] == #[trigger] l@[q],
        decreases l.len() - k,
    {
        if t[a + k] != l[k] {
            assert(t@.subrange(a as int, b as int)[k as int] != lit@[k as int]);
            return false;
        }
        k += 1;
    }
    assert(t@.subrange(a as int, b as int) =~= lit@);
    true
}

/// Whether `[a, b)` begins with the characters of `lit`.
pub fn text_starts_with(t: &Vec<char>, a: usize, b: usize, lit: &str) -> (r: bool)
    requires
        a <= b <= t@.len(),
    ensures
        r == starts_with(t@, a as int, b as int, lit@),
{
    let n = lit.unicode_len();
    if b - a < n {
        return false;
    }
    text_is(t, a, a + n, lit)
}

/// Whether two ranges hold the same characters.
pub fn same_text(t: &Vec<char>, a: usize, b: usize, c: usize, d: usize) -> (r: bool)
    requires
        a <= b <= t@.len(),
        c <= d <= t@.len(),
    ensures
        r == (t@.subrange(a as int, b as int) == t@.subrange(c as int, d as int)),
{
    if b - a != d - c {
        assert(t@.subrange(a as int, b as int).len() != t@.subrange(c as int, d as int).len());
        return false;
    }
    let mut k: usize = 0;
    while k < b - a
        invariant
            k <= b - a,
            b - a == d - c,
            a <= b <= t@.len(),
            c <= d <= t@.len(),
            forall|q: int| 0 <= q < k ==> t@.subrange(a as int, b as int)[q] == #[trigger] t@.subrange(c as int, d as int)[q],
        decreases b - a - k,
    {
        if t[a + k] != t[c + k] {
            assert(t@.subrange(a as int, b as int)[k as int] != t@.subrange(c as int, d as int)[k as int]);
            return false;
        }
        k += 1;
    }
    assert(t@.subrange(a as int, b as int) =~= t@.subrange(c as int, d as int));
    true
}

/// Reads decimal digits `[s, b)`; `None` when one is not a digit or the value passes `bound`.
fn read_digits(t: &Vec<char>, s: usize, b: usize, bound: u128) -> (r: Option<u128>)
    requires
        s <= b <= t@.len(),
        bound >= 9,
    ensures
        match r {
            Some(v) => all_digits(t@, s as int, b as int) && v == digits_value(t@, s as int, b as int) && v <= bound,
            None => !all_digits(t@, s as int, b as int) || digits_value(t@, s as int, b as int) > bound,
        },
{
    if s == b {
        return None;
    }
    let mut v: u128 = 0;
    let mut k = s;
    while k < b
        invariant
            s <= k <= b <= t@.len(),
            forall|q: int| s <= q < k ==> '0' <= #[trigger] t@[q] <= '9',
            v == digits_value(t@, s as int, k as int),
            v <= bound,
            bound >= 9,
        decreases b - k,
    {
        let c = t[k];
        if !('0' <= c && c <= '9') {
            return None;
        }
        let d = (c as u32 - '0' as u32) as u128;
        if v > (bound - d) / 10 {
            proof {
                assert(digits_value(t@, s as int, k + 1) == v * 10 + d);
                assert(v * 10 + d > bound) by (nonlinear_arith)
                    requires v > (bound - d) / 10, d <= 9, bound >= 9;
                if all_digits(t@, s as int, b as int) {
                    lemma_digits_grow(t@, s as int, k + 1, b as int);
                }
            }
            return None;
        }
        proof {
            assert(v * 10 + d <= bound) by (nonlinear_arith)
                requires v <= (bound - d) / 10, d <= 9, bound >= 9;
        }
        v = v * 10 + d;
        k += 1;
    }
    Some(v)
}

/// Reads `[a, b)` as a `u32`.
pub fn read_u32(t: &Vec<char>, a: usize, b: usize) -> (r: Option<u32>)
    requires
        a <= b <= t@.len(),
    ensures
        r == parse_u32(t@, a as int, b as int),
{
    let s = if a < b && t[a] == '+' { a + 1 } else { a };
    match read_digits(t, s, b, 0xffff_ffff) {
        Some(v) => Some(v as u32),
        None => None,
    }
}

/// Reads `[a, b)` as a `u128`.
pub fn read_u128(t: &Vec<char>, a: usize, b: usize) -> (r: Option<u128>)
    requires
        a <= b <= t@.len(),
    ensures
        r == parse_u128(t@, a as int, b as int),
{
    let s = if a < b && t[a] == '+' { a + 1 } else { a };
    read_digits(t, s, b, 0xffff_ffff_ffff_ffff_ffff_ffff_ffff_ffff)
}

/// Reads `[a, b)` as an `i64`.
pub fn read_i64(t: &Vec<char>, a: usize, b: usize) -> (r: Option<i64>)
    requires
        a <= b <= t@.len(),
    ensures
        r == parse_i64(t@, a as int, b as int),
{
    let neg = a < b && t[a] == '-';
    let s = if a < b && (t[a] == '+' || t[a] == '-') { a + 1 } else { a };
    if neg {
        match read_digits(t, s, b, 0x8000_0000_0000_0000) {
            Some(v) => {
                if v == 0x8000_0000_0000_0000 {
                    Some(i64::MIN)
                } else {
                    Some(0 - (v as i64))
                }
            },
            None => None,
        }
    } else {
        match read_digits(t, s, b, 0x7fff_ffff_ffff_ffff) {
            Some(v) => Some(v as i64),
            None => None,
        }
    }
}

} // verus!
