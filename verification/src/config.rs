//! The self-describing first line of a bench CSV:
//! `# config: kind=pub rate=1000 payload=128 ... topic=Chatter domain=0`.

use vstd::prelude::*;

use crate::bench::BenchKind;

verus! {

/// Unicode `White_Space` characters (what `char::is_whitespace` accepts).
pub open spec fn is_ws(c: char) -> bool {
    let u = c as u32;
    (9 <= u <= 13) || u == 0x20 || u == 0x85 || u == 0xA0 || u == 0x1680 || (0x2000 <= u <= 0x200A)
        || u == 0x2028 || u == 0x2029 || u == 0x202F || u == 0x205F || u == 0x3000
}

fn is_ws_exec(c: char) -> (r: bool)
    ensures
        r == is_ws(c),
{
    let u = c as u32;
    (9 <= u && u <= 13) || u == 0x20 || u == 0x85 || u == 0xA0 || u == 0x1680 || (0x2000 <= u && u
        <= 0x200A) || u == 0x2028 || u == 0x2029 || u == 0x202F || u == 0x205F || u == 0x3000
}

/// Index of the first `'\n'` at or after `i`, or `s.len()`.
pub open spec fn line_end_from(s: Seq<char>, i: int) -> int
    decreases s.len() - i,
{
    if i >= s.len() {
        s.len() as int
    } else if s[i] == '\n' {
        i
    } else {
        line_end_from(s, i + 1)
    }
}

/// End of `s[..e]` once trailing whitespace is dropped.
pub open spec fn trim_end_at(s: Seq<char>, e: int) -> int
    decreases e,
{
    if e > 0 && is_ws(s[e - 1]) {
        trim_end_at(s, e - 1)
    } else {
        e
    }
}

/// End (exclusive) of the word starting at `i`, within `s[..hi]`.
pub open spec fn word_end(s: Seq<char>, i: int, hi: int) -> int
    decreases hi - i,
{
    if i >= hi || is_ws(s[i]) {
        i
    } else {
        word_end(s, i + 1, hi)
    }
}

pub proof fn lemma_word_end_bounds(s: Seq<char>, i: int, hi: int)
    requires
        i <= hi,
    ensures
        i <= word_end(s, i, hi) <= hi,
        i < hi && !is_ws(s[i]) ==> word_end(s, i, hi) > i,
    decreases hi - i,
{
    if i < hi && !is_ws(s[i]) {
        lemma_word_end_bounds(s, i + 1, hi);
    }
}

/// The whitespace-separated words of `s[i..hi]`, in order.
pub open spec fn words_in(s: Seq<char>, i: int, hi: int) -> Seq<Seq<char>>
    decreases hi - i,
{
    if i >= hi {
        Seq::empty()
    } else if is_ws(s[i]) {
        words_in(s, i + 1, hi)
    } else {
        let j = word_end(s, i, hi);
        proof {
            lemma_word_end_bounds(s, i, hi);
        }
        seq![s.subrange(i, j)] + words_in(s, j, hi)
    }
}

/// Index of the first `'='` in `t` at or after `i`, or -1.
pub open spec fn eq_pos_from(t: Seq<char>, i: int) -> int
    decreases t.len() - i,
{
    if i >= t.len() {
        -1
    } else if t[i] == '=' {
        i
    } else {
        eq_pos_from(t, i + 1)
    }
}

/// Value of `key` among `k=v` words: the last word whose text before its
/// first `=` is `key` gives it; words without `=` are ignored.
pub open spec fn config_lookup(words: Seq<Seq<char>>, key: Seq<char>) -> Option<Seq<char>>
    decreases words.len(),
{
    if words.len() == 0 {
        None
    } else {
        let t = words.last();
        let p = eq_pos_from(t, 0);
        if p >= 0 && t.take(p) == key {
            Some(t.skip(p + 1))
        } else {
            config_lookup(words.drop_last(), key)
        }
    }
}

pub open spec fn config_prefix() -> Seq<char> {
    "# config:"@
}

/// Words of the header line of `s`, or `None` when the first line (with
/// trailing whitespace dropped) does not start with `# config:`.
pub open spec fn header_words(s: Seq<char>) -> Option<Seq<Seq<char>>> {
    let t = trim_end_at(s, line_end_from(s, 0));
    if t >= 9 && s.take(9) == config_prefix() {
        Some(words_in(s, 9, t))
    } else {
        None
    }
}

pub open spec fn is_digit(c: char) -> bool {
    48 <= (c as u32) <= 57
}

/// Decimal value of a string of digits.
pub open spec fn digits_val(d: Seq<char>) -> int
    decreases d.len(),
{
    if d.len() == 0 {
        0
    } else {
        10 * digits_val(d.drop_last()) + ((d.last() as u32) - 48)
    }
}

pub open spec fn all_digits(d: Seq<char>) -> bool {
    forall|i: int| 0 <= i < d.len() ==> is_digit(#[trigger] d[i])
}

/// What `str::parse` gives for an unsigned integer type whose largest
/// value is `max`: an optional `+`, then one or more decimal digits, of
/// value at most `max`.
pub open spec fn parse_unsigned(t: Seq<char>, max: int) -> Option<int> {
    let body = if t.len() > 0 && t[0] == '+' { t.skip(1) } else { t };
    if body.len() > 0 && all_digits(body) && digits_val(body) <= max {
        Some(digits_val(body))
    } else {
        None
    }
}

/// What `str::parse::<i64>` gives: an optional sign, then one or more
/// decimal digits, within the range of `i64`.
pub open spec fn parse_i64_text(t: Seq<char>) -> Option<int> {
    if t.len() > 0 && t[0] == '-' {
        let body = t.skip(1);
        if body.len() > 0 && all_digits(body) && digits_val(body) <= 0x8000_0000_0000_0000 {
            Some(-digits_val(body))
        } else {
            None
        }
    } else {
        parse_unsigned(t, i64::MAX as int)
    }
}

pub proof fn lemma_digits_val_step(d: Seq<char>, i: int)
    requires
        0 <= i < d.len(),
    ensures
        digits_val(d.take(i + 1)) == 10 * digits_val(d.take(i)) + ((d[i] as u32) - 48),
{
    assert(d.take(i + 1).drop_last() =~= d.take(i));
}

pub proof fn lemma_digits_val_mono(d: Seq<char>, i: int, j: int)
    requires
        all_digits(d),
        0 <= i <= j <= d.len(),
    ensures
        0 <= digits_val(d.take(i)) <= digits_val(d.take(j)),
    decreases j - i,
{
    if i < j {
        lemma_digits_val_mono(d, i, j - 1);
        lemma_digits_val_step(d, j - 1);
        assert(is_digit(d[j - 1]));
    } else {
        lemma_digits_nonneg(d.take(i));
    }
}

pub proof fn lemma_digits_nonneg(d: Seq<char>)
    requires
        all_digits(d),
    ensures
        digits_val(d) >= 0,
    decreases d.len(),
{
    if d.len() > 0 {
        lemma_digits_nonneg(d.drop_last());
        assert(is_digit(d[d.len() - 1]));
    }
}

/// Error of the header line.
pub enum HeaderError {
    /// The content has no line at all.
    EmptyFile,
    /// The first line does not start with `# config:`.
    MissingHeader,
    /// `kind=` names neither `pub` nor `sub`.
    UnknownKind(String),
    /// There is no `kind=` word.
    MissingKind,
}

pub open spec fn header_error_text(e: HeaderError) -> Seq<char> {
    match e {
        HeaderError::EmptyFile => "empty file"@,
        HeaderError::MissingHeader => "missing '# config:' header on the first line \u{2014} re-run with a pub/sub-rustdds that emits it (>= bench-csv revision)"@,
        HeaderError::UnknownKind(k) => "unknown kind="@ + k@,
        HeaderError::MissingKind => "missing kind in '# config:' header"@,
    }
}

impl HeaderError {
    /// Human-readable message.
    pub fn message(&self) -> (r: String)
        ensures
            r@ == header_error_text(*self),
    {
        match self {
            HeaderError::EmptyFile => String::from_str("empty file"),
            HeaderError::MissingHeader => String::from_str(
                "missing '# config:' header on the first line \u{2014} re-run with a pub/sub-rustdds that emits it (>= bench-csv revision)",
            ),
            HeaderError::UnknownKind(k) => String::from_str("unknown kind=").concat(k.as_str()),
            HeaderError::MissingKind => String::from_str("missing kind in '# config:' header"),
        }
    }
}

/// The run configuration named by the header line. `rate` is kept as the
/// text found after `rate=`.
pub struct ConfigHeader {
    pub kind: BenchKind,
    pub rate: Option<String>,
    pub payload: Option<u64>,
    pub await_readers: Option<u64>,
    pub duration: Option<u64>,
    pub warmup: Option<u64>,
    pub reliability: Option<String>,
    pub history_depth: Option<i64>,
    pub topic: Option<String>,
    pub domain: Option<u16>,
}

pub open spec fn opt_text(o: Option<String>) -> Option<Seq<char>> {
    match o {
        Some(s) => Some(s@),
        None => None,
    }
}

/// A value looked up and parsed as an unsigned integer of largest value `max`.
pub open spec fn lookup_unsigned(w: Seq<Seq<char>>, key: Seq<char>, max: int) -> Option<int> {
    match config_lookup(w, key) {
        Some(v) => parse_unsigned(v, max),
        None => None,
    }
}

pub open spec fn opt_u64(o: Option<int>) -> Option<u64> {
    match o {
        Some(v) => Some(v as u64),
        None => None,
    }
}

/// `h` is the configuration the words `w` describe.
pub open spec fn header_matches(h: ConfigHeader, w: Seq<Seq<char>>) -> bool {
    &&& config_lookup(w, "kind"@) == Some(
        match h.kind {
            BenchKind::Pub => "pub"@,
            BenchKind::Sub => "sub"@,
        },
    )
    &&& opt_text(h.rate) == config_lookup(w, "rate"@)
    &&& h.payload == opt_u64(lookup_unsigned(w, "payload"@, u64::MAX as int))
    &&& h.await_readers == opt_u64(lookup_unsigned(w, "await_readers"@, u64::MAX as int))
    &&& h.duration == opt_u64(lookup_unsigned(w, "duration"@, u64::MAX as int))
    &&& h.warmup == opt_u64(lookup_unsigned(w, "warmup"@, u64::MAX as int))
    &&& opt_text(h.reliability) == config_lookup(w, "reliability"@)
    &&& h.history_depth == match config_lookup(w, "history_depth"@) {
        Some(v) => match parse_i64_text(v) {
            Some(x) => Some(x as i64),
            None => None,
        },
        None => None,
    }
    &&& opt_text(h.topic) == config_lookup(w, "topic"@)
    &&& h.domain == match lookup_unsigned(w, "domain"@, u16::MAX as int) {
        Some(x) => Some(x as u16),
        None => None,
    }
}

/// What reading the header line of `s` gives: the configuration it
/// describes, or the error.
pub open spec fn header_result_ok(s: Seq<char>, r: Result<ConfigHeader, HeaderError>) -> bool {
    if s.len() == 0 {
        r is Err && r->Err_0 is EmptyFile
    } else {
        match header_words(s) {
            None => r is Err && r->Err_0 is MissingHeader,
            Some(w) => match config_lookup(w, "kind"@) {
                None => r is Err && r->Err_0 is MissingKind,
                Some(k) => if k == "pub"@ || k == "sub"@ {
                    r is Ok && header_matches(r->Ok_0, w)
                } else {
                    r is Err && r->Err_0 is UnknownKind && (r->Err_0)->UnknownKind_0@ == k
                },
            },
        }
    }
}

/// Whether `s[a..b]` spells `lit`.
fn range_eq(s: &str, a: usize, b: usize, lit: &str) -> (r: bool)
    requires
        a <= b <= s@.len(),
    ensures
        r == (s@.subrange(a as int, b as int) == lit@),
{
    let n = lit.unicode_len();
    if b - a != n {
        proof {
            assert(s@.subrange(a as int, b as int).len() != lit@.len());
        }
        return false;
    }
    let mut k: usize = 0;
    while k < n
        invariant
            a <= b <= s@.len(),
            n == lit@.len(),
            b - a == n,
            k <= n,
            forall|m: int| 0 <= m < k ==> s@[a + m] == lit@[m],
        decreases n - k,
    {
        if s.get_char(a + k) != lit.get_char(k) {
            proof {
                assert(s@.subrange(a as int, b as int)[k as int] != lit@[k as int]);
            }
            return false;
        }
        k = k + 1;
    }
    proof {
        assert(s@.subrange(a as int, b as int) =~= lit@);
    }
    true
}

/// Position of the first `'='` in `s[a..b]`.
fn find_eq(s: &str, a: usize, b: usize) -> (r: Option<usize>)
    requires
        a <= b <= s@.len(),
    ensures
        match r {
            Some(p) => a <= p < b && eq_pos_from(s@.subrange(a as int, b as int), 0) == p - a,
            None => eq_pos_from(s@.subrange(a as int, b as int), 0) == -1,
        },
{
    let ghost t = s@.subrange(a as int, b as int);
    let mut k: usize = a;
    while k < b
        invariant
            a <= k <= b <= s@.len(),
            t == s@.subrange(a as int, b as int),
            eq_pos_from(t, 0) == eq_pos_from(t, k - a),
        decreases b - k,
    {
        if s.get_char(k) == '=' {
            return Some(k);
        }
        k = k + 1;
    }
    None
}

/// The whitespace-separated words of `s[lo..hi]`, as index ranges.
fn split_words(s: &str, lo: usize, hi: usize) -> (r: Vec<(usize, usize)>)
    requires
        lo <= hi <= s@.len(),
    ensures
        forall|k: int| 0 <= k < r@.len() ==> lo <= (#[trigger] r@[k]).0 <= r@[k].1 <= hi,
        Seq::new(r@.len(), |k: int| s@.subrange(r@[k].0 as int, r@[k].1 as int)) == words_in(
            s@,
            lo as int,
            hi as int,
        ),
{
    let ghost sv = s@;
    let mut toks: Vec<(usize, usize)> = Vec::new();
    let mut i: usize = lo;
    while i < hi
        invariant
            lo <= i <= hi <= sv.len(),
            sv == s@,
            forall|k: int| 0 <= k < toks@.len() ==> lo <= (#[trigger] toks@[k]).0 <= toks@[k].1 <= hi,
            words_in(sv, lo as int, hi as int) == Seq::new(
                toks@.len(),
                |k: int| sv.subrange(toks@[k].0 as int, toks@[k].1 as int),
            ) + words_in(sv, i as int, hi as int),
        decreases hi - i,
    {
        let c = s.get_char(i);
        if is_ws_exec(c) {
            i = i + 1;
        } else {
            let mut j: usize = i + 1;
            proof {
                lemma_word_end_bounds(sv, i as int, hi as int);
            }
            while j < hi && !is_ws_exec(s.get_char(j))
                invariant
                    i < j <= hi <= sv.len(),
                    sv == s@,
                    word_end(sv, i as int, hi as int) == word_end(sv, j as int, hi as int),
                decreases hi - j,
            {
                j = j + 1;
            }
            let ghost before = Seq::new(
                toks@.len(),
                |k: int| sv.subrange(toks@[k].0 as int, toks@[k].1 as int),
            );
            toks.push((i, j));
            proof {
                let after = Seq::new(
                    toks@.len(),
                    |k: int| sv.subrange(toks@[k].0 as int, toks@[k].1 as int),
                );
                assert(after =~= before.push(sv.subrange(i as int, j as int)));
                assert(word_end(sv, j as int, hi as int) == j);
                assert(words_in(sv, i as int, hi as int) == seq![sv.subrange(i as int, j as int)]
                    + words_in(sv, j as int, hi as int));
                assert(before + words_in(sv, i as int, hi as int) =~= after + words_in(
                    sv,
                    j as int,
                    hi as int,
                ));
            }
            i = j;
        }
    }
    proof {
        assert(words_in(sv, hi as int, hi as int) =~= Seq::<Seq<char>>::empty());
        assert(words_in(sv, lo as int, hi as int) =~= Seq::new(
            toks@.len(),
            |k: int| sv.subrange(toks@[k].0 as int, toks@[k].1 as int),
        ));
    }
    toks
}

/// Value range of `key` among the words `toks` of `s` (the last word
/// whose text before its first `=` is `key`).
fn lookup_key(s: &str, toks: &Vec<(usize, usize)>, key: &str) -> (r: Option<(usize, usize)>)
    requires
        forall|k: int| 0 <= k < toks@.len() ==> (#[trigger] toks@[k]).0 <= toks@[k].1 <= s@.len(),
    ensures
        ({
            let w = Seq::new(toks@.len(), |k: int| s@.subrange(toks@[k].0 as int, toks@[k].1 as int));
            match config_lookup(w, key@) {
                None => r is None,
                Some(v) => match r {
                    Some((x, y)) => x <= y <= s@.len() && s@.subrange(x as int, y as int) == v,
                    None => false,
                },
            }
        }),
{
    let ghost w = Seq::new(toks@.len(), |k: int| s@.subrange(toks@[k].0 as int, toks@[k].1 as int));
    let mut k: usize = toks.len();
    proof {
        assert(w.take(k as int) =~= w);
    }
    while k > 0
        invariant
            k <= toks@.len(),
            w == Seq::new(toks@.len(), |m: int| s@.subrange(toks@[m].0 as int, toks@[m].1 as int)),
            forall|m: int| 0 <= m < toks@.len() ==> (#[trigger] toks@[m]).0 <= toks@[m].1 <= s@.len(),
            config_lookup(w, key@) == config_lookup(w.take(k as int), key@),
        decreases k,
    {
        let (a, b) = toks[k - 1];
        proof {
            assert(w.take(k as int).last() == w[k - 1]);
            assert(w.take(k as int).drop_last() =~= w.take(k - 1));
        }
        match find_eq(s, a, b) {
            Some(p) => {
                if range_eq(s, a, p, key) {
                    proof {
                        let t = w[k - 1];
                        assert(t.take(p - a) =~= s@.subrange(a as int, p as int));
                        assert(t.skip(p - a + 1) =~= s@.subrange(p + 1, b as int));
                    }
                    return Some((p + 1, b));
                } else {
                    proof {
                        let t = w[k - 1];
                        assert(t.take(p - a) =~= s@.subrange(a as int, p as int));
                    }
                }
            },
            None => {},
        }
        k = k - 1;
    }
    None
}

/// `str::parse` of `s[a..b]` for an unsigned type whose largest value is `max`.
pub(crate) fn parse_unsigned_range(s: &str, a: usize, b: usize, max: u64) -> (r: Option<u64>)
    requires
        a <= b <= s@.len(),
        max >= 9,
    ensures
        r is Some <==> parse_unsigned(s@.subrange(a as int, b as int), max as int) is Some,
        r is Some ==> r.unwrap() == parse_unsigned(s@.subrange(a as int, b as int), max as int).unwrap()
            && r.unwrap() <= max,
{
    let ghost t = s@.subrange(a as int, b as int);
    proof {
        if a < b {
            assert(t[0] == s@[a as int]);
        }
    }
    let plus = a < b && s.get_char(a) == '+';
    let start = if plus { a + 1 } else { a };
    let ghost body = s@.subrange(start as int, b as int);
    proof {
        assert(plus == (t.len() > 0 && t[0] == '+'));
        if plus {
            assert(body =~= t.skip(1));
        } else {
            assert(body =~= t);
        }
    }
    if start >= b {
        proof {
            assert(body.len() == 0);
            assert(parse_unsigned(t, max as int) is None);
        }
        return None;
    }
    let mut k: usize = start;
    while k < b
        invariant
            start <= k <= b <= s@.len(),
            body == s@.subrange(start as int, b as int),
            t == s@.subrange(a as int, b as int),
            body == (if t.len() > 0 && t[0] == '+' { t.skip(1) } else { t }),
            forall|m: int| 0 <= m < k - start ==> is_digit(#[trigger] body[m]),
        decreases b - k,
    {
        let c = s.get_char(k);
        if !((c as u32) >= 48 && (c as u32) <= 57) {
            proof {
                assert(!is_digit(body[k - start]));
            }
            return None;
        }
        k = k + 1;
    }
    proof {
        assert(all_digits(body));
        assert(body.take(0) =~= Seq::<char>::empty());
        assert(digits_val(body.take(0)) == 0);
    }
    let mut acc: u64 = 0;
    let mut k: usize = start;
    while k < b
        invariant
            start <= k <= b <= s@.len(),
            max >= 9,
            body == s@.subrange(start as int, b as int),
            t == s@.subrange(a as int, b as int),
            body == (if t.len() > 0 && t[0] == '+' { t.skip(1) } else { t }),
            body.len() > 0,
            all_digits(body),
            acc == digits_val(body.take(k - start)),
            acc <= max,
        decreases b - k,
    {
        let c = s.get_char(k);
        proof {
            assert(c == body[k - start]);
            assert(is_digit(body[k - start]));
            lemma_digits_val_step(body, k - start);
        }
        let d: u64 = ((c as u32) - 48) as u64;
        if acc > (max - d) / 10 {
            proof {
                assert(acc * 10 + d > max) by (nonlinear_arith)
                    requires
                        acc > (max - d) / 10,
                        d <= 9,
                        max >= 9,
                ;
                lemma_digits_val_mono(body, k - start + 1, body.len() as int);
                assert(body.take(body.len() as int) =~= body);
                assert(digits_val(body) > max);
                assert(parse_unsigned(t, max as int) is None);
            }
            return None;
        }
        proof {
            assert(acc * 10 + d <= max) by (nonlinear_arith)
                requires
                    acc <= (max - d) / 10,
                    d <= 9,
                    max >= 9,
            ;
        }
        acc = acc * 10 + d;
        k = k + 1;
    }
    proof {
        assert(body.take(body.len() as int) =~= body);
        assert(parse_unsigned(t, max as int) == Some(acc as int));
    }
    Some(acc)
}

/// `str::parse::<i64>` of `s[a..b]`.
fn parse_i64_range(s: &str, a: usize, b: usize) -> (r: Option<i64>)
    requires
        a <= b <= s@.len(),
    ensures
        r == match parse_i64_text(s@.subrange(a as int, b as int)) {
            Some(x) => Some(x as i64),
            None => None::<i64>,
        },
{
    let ghost t = s@.subrange(a as int, b as int);
    proof {
        if a < b {
            assert(t[0] == s@[a as int]);
        }
        if a + 1 < b {
            assert(t[1] == s@[a + 1]);
        }
    }
    if a < b && s.get_char(a) == '-' {
        proof {
            assert(t.skip(1) =~= s@.subrange(a + 1, b as int));
        }
        if a + 1 < b && s.get_char(a + 1) == '+' {
            proof {
                let body = t.skip(1);
                assert(body[0] == '+');
                assert(!is_digit(body[0]));
            }
            return None;
        }
        match parse_unsigned_range(s, a + 1, b, 0x8000_0000_0000_0000u64) {
            Some(m) => {
                proof {
                    let body = t.skip(1);
                    assert(body.len() > 0 ==> body[0] != '+');
                    assert(parse_unsigned(body, 0x8000_0000_0000_0000) is Some);
                    assert(m <= 0x8000_0000_0000_0000u64);
                }
                if m == 0x8000_0000_0000_0000u64 {
                    Some(i64::MIN)
                } else {
                    Some(-(m as i64))
                }
            },
            None => None,
        }
    } else {
        match parse_unsigned_range(s, a, b, i64::MAX as u64) {
            Some(v) => {
                proof {
                    assert(parse_unsigned(t, i64::MAX as int) is Some);
                    assert(v <= i64::MAX);
                }
                Some(v as i64)
            },
            None => None,
        }
    }
}

/// Read the `# config:` line at the top of a bench CSV.
pub fn parse_config_line(content: &str) -> (r: Result<ConfigHeader, HeaderError>)
    ensures
        header_result_ok(content@, r),
{
    let ghost s = content@;
    let n = content.unicode_len();
    if n == 0 {
        return Err(HeaderError::EmptyFile);
    }
    let mut e: usize = 0;
    while e < n && content.get_char(e) != '\n'
        invariant
            n == s.len(),
            s == content@,
            e <= n,
            line_end_from(s, 0) == line_end_from(s, e as int),
        decreases n - e,
    {
        e = e + 1;
    }
    let mut t: usize = e;
    while t > 0 && is_ws_exec(content.get_char(t - 1))
        invariant
            n == s.len(),
            s == content@,
            t <= e <= n,
            e == line_end_from(s, 0),
            trim_end_at(s, e as int) == trim_end_at(s, t as int),
        decreases t,
    {
        t = t - 1;
    }
    if t < 9 || !range_eq(content, 0, 9, "# config:") {
        proof {
            assert(s.subrange(0, 9) =~= s.take(9));
        }
        return Err(HeaderError::MissingHeader);
    }
    proof {
        assert(s.subrange(0, 9) =~= s.take(9));
    }
    let toks = split_words(content, 9, t);
    let ghost w = Seq::new(toks@.len(), |k: int| s.subrange(toks@[k].0 as int, toks@[k].1 as int));
    proof {
        assert(header_words(s) == Some(w));
    }
    let kind = match lookup_key(content, &toks, "kind") {
        None => {
            return Err(HeaderError::MissingKind);
        },
        Some((a, b)) => {
            if range_eq(content, a, b, "pub") {
                BenchKind::Pub
            } else if range_eq(content, a, b, "sub") {
                BenchKind::Sub
            } else {
                let other = content.substring_char(a, b).to_owned();
                return Err(HeaderError::UnknownKind(other));
            }
        },
    };
    let rate = match lookup_key(content, &toks, "rate") {
        Some((a, b)) => Some(content.substring_char(a, b).to_owned()),
        None => None,
    };
    let payload = match lookup_key(content, &toks, "payload") {
        Some((a, b)) => parse_unsigned_range(content, a, b, u64::MAX),
        None => None,
    };
    let await_readers = match lookup_key(content, &toks, "await_readers") {
        Some((a, b)) => parse_unsigned_range(content, a, b, u64::MAX),
        None => None,
    };
    let duration = match lookup_key(content, &toks, "duration") {
        Some((a, b)) => parse_unsigned_range(content, a, b, u64::MAX),
        None => None,
    };
    let warmup = match lookup_key(content, &toks, "warmup") {
        Some((a, b)) => parse_unsigned_range(content, a, b, u64::MAX),
        None => None,
    };
    let reliability = match lookup_key(content, &toks, "reliability") {
        Some((a, b)) => Some(content.substring_char(a, b).to_owned()),
        None => None,
    };
    let history_depth = match lookup_key(content, &toks, "history_depth") {
        Some((a, b)) => parse_i64_range(content, a, b),
        None => None,
    };
    let topic = match lookup_key(content, &toks, "topic") {
        Some((a, b)) => Some(content.substring_char(a, b).to_owned()),
        None => None,
    };
    let domain = match lookup_key(content, &toks, "domain") {
        Some((a, b)) => match parse_unsigned_range(content, a, b, 65535) {
            Some(v) => {
                proof {
                    assert(parse_unsigned(s.subrange(a as int, b as int), 65535) is Some);
                    assert(v <= 65535);
                }
                Some(v as u16)
            },
            None => None,
        },
        None => None,
    };
    Ok(
        ConfigHeader {
            kind,
            rate,
            payload,
            await_readers,
            duration,
            warmup,
            reliability,
            history_depth,
            topic,
            domain,
        },
    )
}

proof fn lemma_eq_pos_after_key(t: Seq<char>, key: Seq<char>, i: int)
    requires
        0 <= i <= key.len(),
        key.len() < t.len(),
        t[key.len() as int] == '=',
        forall|j: int| 0 <= j < key.len() ==> key[j] != '=' && t[j] == key[j],
    ensures
        eq_pos_from(t, i) == key.len(),
    decreases key.len() - i,
{
    if i < key.len() {
        lemma_eq_pos_after_key(t, key, i + 1);
    }
}

/// In a `# config:` header the last `key=value` word for a key gives its
/// value: appending `key=v` (for a key without `=`) makes the lookup give
/// `v`, and appending a word for another key, or one without `=`, leaves
/// the lookup of `key` as it was.
pub proof fn law_config_last_word_wins(words: Seq<Seq<char>>, key: Seq<char>, v: Seq<char>, w: Seq<char>)
    requires
        forall|j: int| 0 <= j < key.len() ==> key[j] != '=',
    ensures
        config_lookup(words.push(key + seq!['='] + v), key) == Some(v),
        (eq_pos_from(w, 0) < 0 || w.take(eq_pos_from(w, 0)) != key) ==> config_lookup(words.push(w), key)
            == config_lookup(words, key),
{
    let t = key + seq!['='] + v;
    lemma_eq_pos_after_key(t, key, 0);
    assert(t.take(key.len() as int) =~= key);
    assert(t.skip((key.len() + 1) as int) =~= v);
    assert(words.push(t).drop_last() =~= words);
    assert(words.push(w).drop_last() =~= words);
}

} // verus!
