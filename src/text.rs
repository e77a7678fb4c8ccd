//! Lexing of line-oriented kernel text: lines, blank-separated words and
//! unsigned decimal numbers.

use vstd::prelude::*;

verus! {

broadcast use vstd::string::group_string_axioms;

/// Characters that separate the words of a line.
pub open spec fn is_blank(c: char) -> bool {
    c == ' ' || c == '\t' || c == '\r'
}

/// Splitting by `'\n'`, left to right: the finished lines and the line in progress.
pub open spec fn lines_acc(s: Seq<char>) -> (Seq<Seq<char>>, Seq<char>)
    decreases s.len(),
{
    if s.len() == 0 {
        (seq![], seq![])
    } else {
        let (done, cur) = lines_acc(s.drop_last());
        if s.last() == '\n' {
            (done.push(cur), seq![])
        } else {
            (done, cur.push(s.last()))
        }
    }
}

/// The lines of `s`, as `str::split('\n')` yields them: a text that ends in a
/// newline has an empty last line.
pub open spec fn lines(s: Seq<char>) -> Seq<Seq<char>> {
    lines_acc(s).0.push(lines_acc(s).1)
}

/// Splitting into words, left to right: the finished words and the word in progress.
pub open spec fn words_acc(s: Seq<char>) -> (Seq<Seq<char>>, Seq<char>)
    decreases s.len(),
{
    if s.len() == 0 {
        (seq![], seq![])
    } else {
        let (done, cur) = words_acc(s.drop_last());
        if is_blank(s.last()) {
            if cur.len() > 0 {
                (done.push(cur), seq![])
            } else {
                (done, cur)
            }
        } else {
            (done, cur.push(s.last()))
        }
    }
}

/// The maximal runs of non-blank characters of `s`, in order.
pub open spec fn words(s: Seq<char>) -> Seq<Seq<char>> {
    if words_acc(s).1.len() > 0 {
        words_acc(s).0.push(words_acc(s).1)
    } else {
        words_acc(s).0
    }
}

pub open spec fn is_digit(c: char) -> bool {
    '0' <= c && c <= '9'
}

/// A non-empty run of decimal digits.
pub open spec fn is_digits(w: Seq<char>) -> bool {
    w.len() > 0 && forall|i: int| 0 <= i < w.len() ==> #[trigger] is_digit(w[i])
}

/// The value of a run of decimal digits.
pub open spec fn digits_value(w: Seq<char>) -> nat
    decreases w.len(),
{
    if w.len() == 0 {
        0
    } else {
        digits_value(w.drop_last()) * 10 + (w.last() as nat - '0' as nat) as nat
    }
}

/// `w` is a decimal number no larger than `max`.
pub open spec fn is_number_upto(w: Seq<char>, max: int) -> bool {
    is_digits(w) && digits_value(w) <= max
}

/// The spans of `cs` that a sequence of `(start, end)` pairs designates.
pub open spec fn spans_text(cs: Seq<char>, spans: Seq<(usize, usize)>) -> Seq<Seq<char>> {
    spans.map_values(|p: (usize, usize)| cs.subrange(p.0 as int, p.1 as int))
}

/// Every span lies inside `lo..hi`.
pub open spec fn spans_within(spans: Seq<(usize, usize)>, lo: int, hi: int) -> bool {
    forall|i: int|
        0 <= i < spans.len() ==> lo <= (#[trigger] spans[i]).0 <= spans[i].1 <= hi
}

/// The characters of `s`, one per element.
pub fn chars_of(s: &str) -> (r: Vec<char>)
    ensures
        r@ == s@,
{
    let mut r: Vec<char> = Vec::new();
    for c in it: s.chars()
        invariant
            it.seq() == s@,
            r@ == it.seq().subrange(0, it.index() as int),
    {
        r.push(c);
    }
    r
}


/// The spans of the lines of `cs`, as [`lines`] splits them.
pub fn line_spans(cs: &Vec<char>) -> (r: Vec<(usize, usize)>)
    ensures
        spans_text(cs@, r@) == lines(cs@),
        r.len() == lines(cs@).len(),
        spans_within(r@, 0, cs.len() as int),
{
    let mut r: Vec<(usize, usize)> = Vec::new();
    let mut start: usize = 0;
    let mut i: usize = 0;
    assert(cs@.subrange(0, 0) =~= Seq::<char>::empty());
    while i < cs.len()
        invariant
            i <= cs.len(),
            start <= i,
            spans_text(cs@, r@) == lines_acc(cs@.subrange(0, i as int)).0,
            lines_acc(cs@.subrange(0, i as int)).1 == cs@.subrange(start as int, i as int),
            spans_within(r@, 0, i as int),
        decreases cs.len() - i,
    {
        let ghost prev = cs@.subrange(0, i as int);
        assert(cs@.subrange(0, i + 1).drop_last() =~= prev);
        assert(cs@.subrange(0, i + 1).last() == cs@[i as int]);
        if cs[i] == '\n' {
            let ghost old_r = r@;
            r.push((start, i));
            assert(spans_text(cs@, r@) =~= spans_text(cs@, old_r).push(
                cs@.subrange(start as int, i as int),
            ));
            start = i + 1;
            assert(cs@.subrange(start as int, i + 1) =~= Seq::<char>::empty());
        } else {
            assert(cs@.subrange(start as int, i + 1) =~= cs@.subrange(start as int, i as int).push(
                cs@[i as int],
            ));
        }
        i = i + 1;
    }
    assert(cs@.subrange(0, cs.len() as int) =~= cs@);
    let ghost old_r = r@;
    r.push((start, cs.len()));
    assert(spans_text(cs@, r@) =~= spans_text(cs@, old_r).push(
        cs@.subrange(start as int, cs.len() as int),
    ));
    r
}

/// The spans of the words of `cs[lo..hi]`, as [`words`] splits them.
pub fn word_spans(cs: &Vec<char>, lo: usize, hi: usize) -> (r: Vec<(usize, usize)>)
    requires
        lo <= hi <= cs.len(),
    ensures
        spans_text(cs@, r@) == words(cs@.subrange(lo as int, hi as int)),
        r.len() == words(cs@.subrange(lo as int, hi as int)).len(),
        spans_within(r@, lo as int, hi as int),
{
    let mut r: Vec<(usize, usize)> = Vec::new();
    let mut start: usize = lo;
    let mut i: usize = lo;
    assert(cs@.subrange(lo as int, lo as int) =~= Seq::<char>::empty());
    while i < hi
        invariant
            lo <= start <= i <= hi <= cs.len(),
            spans_text(cs@, r@) == words_acc(cs@.subrange(lo as int, i as int)).0,
            words_acc(cs@.subrange(lo as int, i as int)).1 == cs@.subrange(start as int, i as int),
            spans_within(r@, lo as int, i as int),
        decreases hi - i,
    {
        let ghost prev = cs@.subrange(lo as int, i as int);
        assert(cs@.subrange(lo as int, i + 1).drop_last() =~= prev);
        assert(cs@.subrange(lo as int, i + 1).last() == cs@[i as int]);
        let c = cs[i];
        if c == ' ' || c == '\t' || c == '\r' {
            if start < i {
                let ghost old_r = r@;
                r.push((start, i));
                assert(spans_text(cs@, r@) =~= spans_text(cs@, old_r).push(
                    cs@.subrange(start as int, i as int),
                ));
            }
            start = i + 1;
            assert(cs@.subrange(start as int, i + 1) =~= Seq::<char>::empty());
        } else {
            assert(cs@.subrange(start as int, i + 1) =~= cs@.subrange(start as int, i as int).push(
                c,
            ));
        }
        i = i + 1;
    }
    if start < hi {
        let ghost old_r = r@;
        r.push((start, hi));
        assert(spans_text(cs@, r@) =~= spans_text(cs@, old_r).push(
            cs@.subrange(start as int, hi as int),
        ));
    }
    r
}


/// A number does not shrink when more digits are read.
proof fn lemma_digits_prefix_le(w: Seq<char>, k: int)
    requires
        0 <= k <= w.len(),
    ensures
        digits_value(w.subrange(0, k)) <= digits_value(w),
    decreases w.len() - k,
{
    if k < w.len() {
        lemma_digits_prefix_le(w.drop_last(), k);
        assert(w.drop_last().subrange(0, k) =~= w.subrange(0, k));
    } else {
        assert(w.subrange(0, k) =~= w);
    }
}

/// Reads `cs[lo..hi]` as a decimal number; `None` unless it is one that fits in `u64`.
pub fn parse_u64(cs: &Vec<char>, lo: usize, hi: usize) -> (r: Option<u64>)
    requires
        lo <= hi <= cs.len(),
    ensures
        r is Some <==> is_number_upto(cs@.subrange(lo as int, hi as int), u64::MAX as int),
        r is Some ==> r->0 == digits_value(cs@.subrange(lo as int, hi as int)),
{
    let ghost w = cs@.subrange(lo as int, hi as int);
    if lo == hi {
        return None;
    }
    let mut v: u64 = 0;
    let mut i: usize = lo;
    assert(w.subrange(0, 0) =~= Seq::<char>::empty());
    while i < hi
        invariant
            lo <= i <= hi <= cs.len(),
            w == cs@.subrange(lo as int, hi as int),
            forall|j: int| 0 <= j < i - lo ==> #[trigger] is_digit(w[j]),
            v == digits_value(w.subrange(0, i - lo)),
        decreases hi - i,
    {
        let c = cs[i];
        assert(w[i - lo] == c);
        if !('0' <= c && c <= '9') {
            assert(!is_digit(w[i - lo]));
            return None;
        }
        let ghost pre = w.subrange(0, i - lo + 1);
        assert(pre.drop_last() =~= w.subrange(0, i - lo));
        assert(pre.last() == c);
        let d = (c as u32 - '0' as u32) as u64;
        assert(digits_value(pre) == v * 10 + d);
        if v > (u64::MAX - d) / 10 {
            proof {
                assert(v * 10 + d > u64::MAX) by (nonlinear_arith)
                    requires
                        v > (u64::MAX - d) / 10,
                        d <= 9,
                ;
                lemma_digits_prefix_le(w, i - lo + 1);
            }
            return None;
        }
        assert(v * 10 + d <= u64::MAX) by (nonlinear_arith)
            requires
                v <= (u64::MAX - d) / 10,
                d <= 9,
        ;
        v = v * 10 + d;
        i = i + 1;
    }
    assert(w.subrange(0, w.len() as int) =~= w);
    Some(v)
}


/// Reads `cs[lo..hi]` as a decimal number; `None` unless it is one that fits in `usize`.
pub fn parse_usize(cs: &Vec<char>, lo: usize, hi: usize) -> (r: Option<usize>)
    requires
        lo <= hi <= cs.len(),
    ensures
        r is Some <==> is_number_upto(cs@.subrange(lo as int, hi as int), usize::MAX as int),
        r is Some ==> r->0 == digits_value(cs@.subrange(lo as int, hi as int)),
{
    match parse_u64(cs, lo, hi) {
        Some(v) => {
            if v <= usize::MAX as u64 {
                Some(v as usize)
            } else {
                None
            }
        },
        None => None,
    }
}

/// Whether `cs[lo..hi]` is exactly `lit`.
pub fn span_eq(cs: &Vec<char>, lo: usize, hi: usize, lit: &[char]) -> (r: bool)
    requires
        lo <= hi <= cs.len(),
    ensures
        r == (cs@.subrange(lo as int, hi as int) == lit@),
{
    if hi - lo != lit.len() {
        return false;
    }
    let mut i: usize = 0;
    while i < lit.len()
        invariant
            hi - lo == lit.len(),
            lo <= hi <= cs.len(),
            i <= lit.len(),
            forall|j: int| 0 <= j < i ==> cs@[lo + j] == lit@[j],
        decreases lit.len() - i,
    {
        if cs[lo + i] != lit[i] {
            assert(cs@.subrange(lo as int, hi as int)[i as int] != lit@[i as int]);
            return false;
        }
        i = i + 1;
    }
    assert(cs@.subrange(lo as int, hi as int) =~= lit@);
    true
}

/// The text of `s` between two character positions, as an owned string.
pub fn span_string(s: &str, lo: usize, hi: usize) -> (r: String)
    requires
        lo <= hi <= s@.len(),
    ensures
        r@ == s@.subrange(lo as int, hi as int),
{
    s.substring_char(lo, hi).to_owned()
}


/// Whether `cs[lo..hi]` is a non-empty run of decimal digits.
pub fn span_is_digits(cs: &Vec<char>, lo: usize, hi: usize) -> (r: bool)
    requires
        lo <= hi <= cs.len(),
    ensures
        r == is_digits(cs@.subrange(lo as int, hi as int)),
{
    let ghost w = cs@.subrange(lo as int, hi as int);
    if lo == hi {
        return false;
    }
    let mut i: usize = lo;
    while i < hi
        invariant
            lo <= i <= hi <= cs.len(),
            w == cs@.subrange(lo as int, hi as int),
            forall|j: int| 0 <= j < i - lo ==> #[trigger] is_digit(w[j]),
        decreases hi - i,
    {
        let c = cs[i];
        assert(w[i - lo] == c);
        if !('0' <= c && c <= '9') {
            assert(!is_digit(w[i - lo]));
            return false;
        }
        i = i + 1;
    }
    true
}


/// The number of leading characters of `s` that are not `c`: the position of
/// the first `c`, or the length when there is none.
pub open spec fn count_until(s: Seq<char>, c: char) -> nat
    decreases s.len(),
{
    if s.len() == 0 || s[0] == c {
        0
    } else {
        1 + count_until(s.subrange(1, s.len() as int), c)
    }
}

/// The number of leading blank characters of `s`.
pub open spec fn count_blanks(s: Seq<char>) -> nat
    decreases s.len(),
{
    if s.len() == 0 || !is_blank(s[0]) {
        0
    } else {
        1 + count_blanks(s.subrange(1, s.len() as int))
    }
}

/// `s` without its leading blanks.
pub open spec fn trim_start(s: Seq<char>) -> Seq<char> {
    s.subrange(count_blanks(s) as int, s.len() as int)
}

proof fn lemma_count_until(s: Seq<char>, c: char, k: int)
    requires
        0 <= k <= s.len(),
        forall|j: int| 0 <= j < k ==> s[j] != c,
        k == s.len() || s[k] == c,
    ensures
        count_until(s, c) == k,
    decreases k,
{
    if k > 0 {
        let t = s.subrange(1, s.len() as int);
        assert forall|j: int| 0 <= j < k - 1 implies t[j] != c by {
            assert(t[j] == s[j + 1]);
        }
        lemma_count_until(t, c, k - 1);
    }
}

proof fn lemma_count_blanks(s: Seq<char>, k: int)
    requires
        0 <= k <= s.len(),
        forall|j: int| 0 <= j < k ==> is_blank(s[j]),
        k == s.len() || !is_blank(s[k]),
    ensures
        count_blanks(s) == k,
    decreases k,
{
    if k > 0 {
        let t = s.subrange(1, s.len() as int);
        assert forall|j: int| 0 <= j < k - 1 implies is_blank(t[j]) by {
            assert(t[j] == s[j + 1]);
        }
        lemma_count_blanks(t, k - 1);
    }
}

/// The position of the first `c` in `cs[lo..hi]`, counted from `lo`; the
/// length of the span when there is none.
pub fn span_count_until(cs: &Vec<char>, lo: usize, hi: usize, c: char) -> (r: usize)
    requires
        lo <= hi <= cs.len(),
    ensures
        r == count_until(cs@.subrange(lo as int, hi as int), c),
        r <= hi - lo,
{
    let ghost w = cs@.subrange(lo as int, hi as int);
    let mut i: usize = lo;
    while i < hi && cs[i] != c
        invariant
            lo <= i <= hi <= cs.len(),
            w == cs@.subrange(lo as int, hi as int),
            forall|j: int| 0 <= j < i - lo ==> w[j] != c,
        decreases hi - i,
    {
        assert(w[i - lo] == cs@[i as int]);
        i = i + 1;
    }
    proof {
        if i < hi {
            assert(w[i - lo] == cs@[i as int]);
        }
        lemma_count_until(w, c, i - lo);
    }
    i - lo
}

/// The number of leading blanks of `cs[lo..hi]`.
pub fn span_count_blanks(cs: &Vec<char>, lo: usize, hi: usize) -> (r: usize)
    requires
        lo <= hi <= cs.len(),
    ensures
        r == count_blanks(cs@.subrange(lo as int, hi as int)),
        r <= hi - lo,
{
    let ghost w = cs@.subrange(lo as int, hi as int);
    let mut i: usize = lo;
    while i < hi && (cs[i] == ' ' || cs[i] == '\t' || cs[i] == '\r')
        invariant
            lo <= i <= hi <= cs.len(),
            w == cs@.subrange(lo as int, hi as int),
            forall|j: int| 0 <= j < i - lo ==> is_blank(w[j]),
        decreases hi - i,
    {
        assert(w[i - lo] == cs@[i as int]);
        i = i + 1;
    }
    proof {
        if i < hi {
            assert(w[i - lo] == cs@[i as int]);
        }
        lemma_count_blanks(w, i - lo);
    }
    i - lo
}

} // verus!
