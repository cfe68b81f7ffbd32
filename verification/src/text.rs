//! Character-level building blocks of the OBJ grammar: Unicode whitespace,
//! trimming, splitting into tokens, and the lexical forms of integers and
//! floating-point literals that an OBJ file may contain.
use vstd::prelude::*;
use vstd::std_specs::iter::IteratorSpec;
use vstd::string::*;

verus! {

// ───────────────────────────── whitespace ─────────────────────────────

/// The Unicode `White_Space` property, which is what `char::is_whitespace`,
/// `str::trim` and `str::split_whitespace` go by.
pub open spec fn is_ws(c: char) -> bool {
    let u = c as u32;
    ||| 0x09 <= u <= 0x0D
    ||| u == 0x20
    ||| u == 0x85
    ||| u == 0xA0
    ||| u == 0x1680
    ||| 0x2000 <= u <= 0x200A
    ||| u == 0x2028
    ||| u == 0x2029
    ||| u == 0x202F
    ||| u == 0x205F
    ||| u == 0x3000
}

pub fn is_whitespace(c: char) -> (r: bool)
    ensures
        r == is_ws(c),
{
    let u = c as u32;
    (0x09 <= u && u <= 0x0D) || u == 0x20 || u == 0x85 || u == 0xA0 || u == 0x1680 || (0x2000
        <= u && u <= 0x200A) || u == 0x2028 || u == 0x2029 || u == 0x202F || u == 0x205F || u
        == 0x3000
}

/// The text with its leading whitespace removed.
pub open spec fn trim_start(s: Seq<char>) -> Seq<char>
    decreases s.len(),
{
    if s.len() > 0 && is_ws(s[0]) {
        trim_start(s.drop_first())
    } else {
        s
    }
}

/// The text with its trailing whitespace removed.
pub open spec fn trim_end(s: Seq<char>) -> Seq<char>
    decreases s.len(),
{
    if s.len() > 0 && is_ws(s.last()) {
        trim_end(s.drop_last())
    } else {
        s
    }
}

/// What `str::trim` gives back.
pub open spec fn trim(s: Seq<char>) -> Seq<char> {
    trim_end(trim_start(s))
}

/// Index of the first whitespace character, or the length when there is none.
pub open spec fn ws_index(s: Seq<char>) -> int
    decreases s.len(),
{
    if s.len() == 0 {
        0
    } else if is_ws(s[0]) {
        0
    } else {
        1 + ws_index(s.drop_first())
    }
}

/// Tokens finished so far, and the token under way, after reading `s` from
/// left to right and cutting at every whitespace character.
pub open spec fn ws_split_state(s: Seq<char>) -> (Seq<Seq<char>>, Seq<char>)
    decreases s.len(),
{
    if s.len() == 0 {
        (Seq::empty(), Seq::empty())
    } else {
        let (toks, cur) = ws_split_state(s.drop_last());
        let c = s.last();
        if is_ws(c) {
            if cur.len() > 0 {
                (toks.push(cur), Seq::empty())
            } else {
                (toks, Seq::empty())
            }
        } else {
            (toks, cur.push(c))
        }
    }
}

/// What `str::split_whitespace` gives back: the maximal non-empty runs of
/// non-whitespace characters, in order.
pub open spec fn split_ws(s: Seq<char>) -> Seq<Seq<char>> {
    let (toks, cur) = ws_split_state(s);
    if cur.len() > 0 {
        toks.push(cur)
    } else {
        toks
    }
}

/// Pieces finished so far, and the piece under way, after reading `s` from
/// left to right and cutting at every `sep`.
pub open spec fn sep_split_state(s: Seq<char>, sep: char) -> (Seq<Seq<char>>, Seq<char>)
    decreases s.len(),
{
    if s.len() == 0 {
        (Seq::empty(), Seq::empty())
    } else {
        let (pieces, cur) = sep_split_state(s.drop_last(), sep);
        let c = s.last();
        if c == sep {
            (pieces.push(cur), Seq::empty())
        } else {
            (pieces, cur.push(c))
        }
    }
}

/// What `str::split(sep)` gives back: the text cut at every `sep`, empty
/// pieces included; there is always at least one piece.
pub open spec fn split_on(s: Seq<char>, sep: char) -> Seq<Seq<char>> {
    let (pieces, cur) = sep_split_state(s, sep);
    pieces.push(cur)
}

pub proof fn lemma_trim_start_skip(s: Seq<char>, k: int)
    requires
        0 <= k <= s.len(),
        forall|i: int| 0 <= i < k ==> is_ws(#[trigger] s[i]),
    ensures
        trim_start(s) == trim_start(s.skip(k)),
    decreases k,
{
    if k > 0 {
        assert(s.skip(k) =~= s.drop_first().skip(k - 1));
        lemma_trim_start_skip(s.drop_first(), k - 1);
    } else {
        assert(s.skip(0) =~= s);
    }
}

pub proof fn lemma_trim_end_take(s: Seq<char>, k: int)
    requires
        0 <= k <= s.len(),
        forall|i: int| k <= i < s.len() ==> is_ws(#[trigger] s[i]),
    ensures
        trim_end(s) == trim_end(s.take(k)),
    decreases s.len() - k,
{
    if k < s.len() {
        assert(s.drop_last().take(k) =~= s.take(k));
        lemma_trim_end_take(s.drop_last(), k);
    } else {
        assert(s.take(k) =~= s);
    }
}

/// Bounds `lo..hi` such that `s[lo..hi]` is `trim(s)`.
pub fn trim_bounds(s: &Vec<char>) -> (r: (usize, usize))
    ensures
        r.0 <= r.1 <= s.len(),
        s@.subrange(r.0 as int, r.1 as int) == trim(s@),
{
    let n = s.len();
    let mut lo: usize = 0;
    while lo < n && is_whitespace(s[lo])
        invariant
            lo <= n == s.len(),
            forall|i: int| 0 <= i < lo ==> is_ws(#[trigger] s@[i]),
        decreases n - lo,
    {
        lo += 1;
    }
    proof {
        lemma_trim_start_skip(s@, lo as int);
        if lo < n {
            assert(trim_start(s@.skip(lo as int)) == s@.skip(lo as int));
        } else {
            assert(s@.skip(lo as int).len() == 0);
        }
    }
    let mut hi: usize = n;
    while hi > lo && is_whitespace(s[hi - 1])
        invariant
            lo <= hi <= n == s.len(),
            forall|i: int| hi <= i < n ==> is_ws(#[trigger] s@[i]),
        decreases hi,
    {
        hi -= 1;
    }
    proof {
        let t = s@.skip(lo as int);
        assert forall|i: int| (hi - lo) <= i < t.len() implies is_ws(#[trigger] t[i]) by {
            assert(t[i] == s@[lo + i]);
        }
        lemma_trim_end_take(t, hi - lo);
        let u = t.take(hi - lo);
        assert(u =~= s@.subrange(lo as int, hi as int));
        if hi > lo {
            assert(u.last() == s@[hi - 1]);
        }
    }
    (lo, hi)
}

pub proof fn lemma_ws_index(s: Seq<char>, k: int)
    requires
        0 <= k <= s.len(),
        forall|i: int| 0 <= i < k ==> !is_ws(#[trigger] s[i]),
        k == s.len() || is_ws(s[k]),
    ensures
        ws_index(s) == k,
    decreases k,
{
    if k > 0 {
        assert forall|i: int| 0 <= i < k - 1 implies !is_ws(#[trigger] s.drop_first()[i]) by {
            assert(s.drop_first()[i] == s[i + 1]);
        }
        lemma_ws_index(s.drop_first(), k - 1);
    }
}

/// Position of the first whitespace character of `s`, or its length.
pub fn find_ws(s: &Vec<char>) -> (r: usize)
    ensures
        r == ws_index(s@),
        r <= s.len(),
{
    let mut i: usize = 0;
    while i < s.len() && !is_whitespace(s[i])
        invariant
            i <= s.len(),
            forall|j: int| 0 <= j < i ==> !is_ws(#[trigger] s@[j]),
        decreases s.len() - i,
    {
        i += 1;
    }
    proof {
        lemma_ws_index(s@, i as int);
    }
    i
}

/// Copy of `s[lo..hi]`.
pub fn subvec(s: &Vec<char>, lo: usize, hi: usize) -> (r: Vec<char>)
    requires
        lo <= hi <= s.len(),
    ensures
        r@ == s@.subrange(lo as int, hi as int),
{
    let mut r: Vec<char> = Vec::new();
    let mut i = lo;
    while i < hi
        invariant
            lo <= i <= hi <= s.len(),
            r@ == s@.subrange(lo as int, i as int),
        decreases hi - i,
    {
        r.push(s[i]);
        i += 1;
        assert(r@ =~= s@.subrange(lo as int, i as int));
    }
    r
}

pub proof fn lemma_split_ws_len(s: Seq<char>)
    ensures
        ws_split_state(s).0.len() + ws_split_state(s).1.len() <= s.len(),
        split_ws(s).len() <= s.len(),
    decreases s.len(),
{
    if s.len() > 0 {
        lemma_split_ws_len(s.drop_last());
    }
}

/// The whitespace-separated tokens of `s`.
pub fn split_whitespace(s: &Vec<char>) -> (r: Vec<Vec<char>>)
    ensures
        r.deep_view() == split_ws(s@),
{
    let mut toks: Vec<Vec<char>> = Vec::new();
    let mut cur: Vec<char> = Vec::new();
    let mut i: usize = 0;
    while i < s.len()
        invariant
            i <= s.len(),
            (toks.deep_view(), cur@) == ws_split_state(s@.take(i as int)),
        decreases s.len() - i,
    {
        let c = s[i];
        proof {
            assert(s@.take(i + 1).drop_last() =~= s@.take(i as int));
        }
        if is_whitespace(c) {
            if cur.len() > 0 {
                let done = cur;
                cur = Vec::new();
                let ghost before = toks.deep_view();
                assert(done.deep_view() =~= done@);
                toks.push(done);
                assert(toks.deep_view() =~= before.push(done@));
            }
        } else {
            cur.push(c);
        }
        i += 1;
    }
    assert(s@.take(s.len() as int) =~= s@);
    if cur.len() > 0 {
        let ghost before = toks.deep_view();
        let ghost last = cur@;
        assert(cur.deep_view() =~= cur@);
        toks.push(cur);
        assert(toks.deep_view() =~= before.push(last));
    }
    toks
}

/// The pieces of `s` cut at every `sep`.
pub fn split_at_char(s: &Vec<char>, sep: char) -> (r: Vec<Vec<char>>)
    ensures
        r.deep_view() == split_on(s@, sep),
        r.len() >= 1,
{
    let mut pieces: Vec<Vec<char>> = Vec::new();
    let mut cur: Vec<char> = Vec::new();
    let mut i: usize = 0;
    while i < s.len()
        invariant
            i <= s.len(),
            (pieces.deep_view(), cur@) == sep_split_state(s@.take(i as int), sep),
        decreases s.len() - i,
    {
        let c = s[i];
        proof {
            assert(s@.take(i + 1).drop_last() =~= s@.take(i as int));
        }
        if c == sep {
            let done = cur;
            cur = Vec::new();
            let ghost before = pieces.deep_view();
            assert(done.deep_view() =~= done@);
            pieces.push(done);
            assert(pieces.deep_view() =~= before.push(done@));
        } else {
            cur.push(c);
        }
        i += 1;
    }
    assert(s@.take(s.len() as int) =~= s@);
    let ghost before = pieces.deep_view();
    let ghost last = cur@;
    assert(cur.deep_view() =~= cur@);
    pieces.push(cur);
    assert(pieces.deep_view() =~= before.push(last));
    pieces
}

// ───────────────────────────── integers ─────────────────────────────

pub open spec fn is_digit(c: char) -> bool {
    '0' <= c <= '9'
}

pub open spec fn digit_value(c: char) -> int {
    (c as u32) - ('0' as u32)
}

/// Value of a run of decimal digits.
pub open spec fn digits_value(s: Seq<char>) -> int
    decreases s.len(),
{
    if s.len() == 0 {
        0
    } else {
        digits_value(s.drop_last()) * 10 + digit_value(s.last())
    }
}

pub open spec fn all_digits(s: Seq<char>) -> bool {
    forall|i: int| 0 <= i < s.len() ==> is_digit(#[trigger] s[i])
}

/// The text after an optional leading sign.
pub open spec fn unsigned_part(s: Seq<char>) -> Seq<char> {
    if s.len() > 0 && (s[0] == '+' || s[0] == '-') {
        s.drop_first()
    } else {
        s
    }
}

/// What `str::parse::<i32>` gives back: an optional `+` or `-` followed by one
/// or more ASCII digits, whose value fits in `i32`.
pub open spec fn parse_i32(s: Seq<char>) -> Option<i32> {
    let neg = s.len() > 0 && s[0] == '-';
    let body = unsigned_part(s);
    let v = if neg {
        -digits_value(body)
    } else {
        digits_value(body)
    };
    if body.len() > 0 && all_digits(body) && i32::MIN <= v <= i32::MAX {
        Some(v as i32)
    } else {
        None
    }
}

pub proof fn lemma_digits_value_nonneg_mono(s: Seq<char>, k: int)
    requires
        all_digits(s),
        0 <= k <= s.len(),
    ensures
        0 <= digits_value(s.take(k)) <= digits_value(s),
    decreases s.len(),
{
    if s.len() > 0 {
        if k == s.len() {
            assert(s.take(k) =~= s);
            lemma_digits_value_nonneg_mono(s.drop_last(), k - 1);
            assert(s.drop_last().take(k - 1) =~= s.drop_last());
        } else {
            lemma_digits_value_nonneg_mono(s.drop_last(), k);
            assert(s.drop_last().take(k) =~= s.take(k));
            lemma_digits_value_nonneg_mono(s.drop_last(), s.len() - 1);
            assert(s.drop_last().take(s.len() - 1) =~= s.drop_last());
        }
    } else {
        assert(s.take(k) =~= s);
    }
}

/// Parses a decimal `i32` the way `str::parse::<i32>` does.
pub fn parse_int(s: &Vec<char>) -> (r: Option<i32>)
    ensures
        r == parse_i32(s@),
{
    let n = s.len();
    if n == 0 {
        return None;
    }
    let neg = s[0] == '-';
    let start: usize = if s[0] == '+' || s[0] == '-' {
        1
    } else {
        0
    };
    let ghost body = s@.skip(start as int);
    proof {
        if start == 1 {
            assert(body =~= s@.drop_first());
        } else {
            assert(body =~= s@);
        }
    }
    if start == n {
        return None;
    }
    let mut acc: u64 = 0;
    let mut i = start;
    while i < n
        invariant
            start <= i <= n == s.len(),
            body == s@.skip(start as int),
            body == unsigned_part(s@),
            all_digits(body.take(i - start)),
            acc == digits_value(body.take(i - start)),
            acc <= 0x8000_0000,
        decreases n - i,
    {
        let c = s[i];
        if !('0' <= c && c <= '9') {
            proof {
                assert(body[i - start] == c);
                assert(!is_digit(body[i - start]));
                assert(!all_digits(body));
            }
            return None;
        }
        let d = (c as u32 - '0' as u32) as u64;
        proof {
            assert(body.take(i + 1 - start).drop_last() =~= body.take(i - start));
            assert(body.take(i + 1 - start).last() == c);
        }
        acc = acc * 10 + d;
        i += 1;
        proof {
            assert forall|j: int| 0 <= j < i - start implies is_digit(
                #[trigger] body.take(i - start)[j],
            ) by {
                if j < i - 1 - start {
                    assert(body.take(i - start)[j] == body.take(i - 1 - start)[j]);
                }
            }
        }
        if acc > 0x8000_0000 {
            // Every further digit only makes the value larger.
            let mut k = i;
            while k < n
                invariant
                    start <= i <= k <= n == s.len(),
                    body == s@.skip(start as int),
                    body == unsigned_part(s@),
                    all_digits(body.take(k - start)),
                    digits_value(body.take(i - start)) > 0x8000_0000,
                decreases n - k,
            {
                let c2 = s[k];
                if !('0' <= c2 && c2 <= '9') {
                    proof {
                        assert(body[k - start] == c2);
                        assert(!is_digit(body[k - start]));
                        assert(!all_digits(body));
                    }
                    return None;
                }
                k += 1;
                proof {
                    assert forall|j: int| 0 <= j < k - start implies is_digit(
                        #[trigger] body.take(k - start)[j],
                    ) by {
                        if j < k - 1 - start {
                            assert(body.take(k - start)[j] == body.take(k - 1 - start)[j]);
                        }
                    }
                }
            }
            proof {
                assert(body.take(n - start) =~= body);
                lemma_digits_value_nonneg_mono(body, i - start);
                assert(digits_value(body) > 0x8000_0000);
                assert(parse_i32(s@).is_none());
            }
            return None;
        }
    }
    proof {
        assert(body.take(n - start) =~= body);
    }
    if neg {
        let v = acc as i64;
        let r = -v;
        if r < -0x8000_0000 {
            None
        } else {
            Some(r as i32)
        }
    } else {
        if acc > 0x7FFF_FFFF {
            None
        } else {
            Some(acc as i32)
        }
    }
}

// ─────────────────────── floating-point literals ───────────────────────

/// `c` lowered when it is an ASCII capital letter.
pub open spec fn ascii_lower(c: char) -> char {
    if 'A' <= c <= 'Z' {
        ((c as u32) + 32) as char
    } else {
        c
    }
}

/// `s` equals the lower-case word `w` up to ASCII case.
pub open spec fn eq_ignore_case(s: Seq<char>, w: Seq<char>) -> bool {
    s.len() == w.len() && forall|i: int| 0 <= i < s.len() ==> ascii_lower(#[trigger] s[i]) == w[i]
}

/// Number of leading ASCII digits.
pub open spec fn digit_run(s: Seq<char>) -> int
    decreases s.len(),
{
    if s.len() > 0 && is_digit(s[0]) {
        1 + digit_run(s.drop_first())
    } else {
        0
    }
}

pub open spec fn is_sign(c: char) -> bool {
    c == '+' || c == '-'
}

/// `[eE] Sign? Digit+`, and nothing after it.
pub open spec fn is_exponent(s: Seq<char>) -> bool {
    s.len() > 0 && (s[0] == 'e' || s[0] == 'E') && {
        let t = s.drop_first();
        let u = if t.len() > 0 && is_sign(t[0]) {
            t.drop_first()
        } else {
            t
        };
        u.len() > 0 && digit_run(u) == u.len()
    }
}

/// `(Digit+ | Digit+ '.' Digit* | Digit* '.' Digit+) Exp?`, and nothing after it.
pub open spec fn is_decimal(s: Seq<char>) -> bool {
    let a = digit_run(s);
    let r = s.skip(a);
    if r.len() > 0 && r[0] == '.' {
        let f = r.drop_first();
        let b = digit_run(f);
        let tail = f.skip(b);
        a + b >= 1 && (tail.len() == 0 || is_exponent(tail))
    } else {
        a >= 1 && (r.len() == 0 || is_exponent(r))
    }
}

/// The texts that `str::parse::<f32>` accepts, after the grammar in its
/// documentation: `Sign? ('inf' | 'infinity' | 'nan' | Number)`, where the
/// words and the exponent marker go by ASCII case.
pub open spec fn is_float_literal(s: Seq<char>) -> bool {
    let b = if s.len() > 0 && is_sign(s[0]) {
        s.drop_first()
    } else {
        s
    };
    ||| eq_ignore_case(b, seq!['i', 'n', 'f'])
    ||| eq_ignore_case(b, seq!['i', 'n', 'f', 'i', 'n', 'i', 't', 'y'])
    ||| eq_ignore_case(b, seq!['n', 'a', 'n'])
    ||| is_decimal(b)
}


pub proof fn lemma_digit_run_step(s: Seq<char>, j: int)
    requires
        0 <= j < s.len(),
        is_digit(s[j]),
    ensures
        digit_run(s.skip(j)) == 1 + digit_run(s.skip(j + 1)),
{
    assert(s.skip(j).drop_first() =~= s.skip(j + 1));
}

/// End of the run of ASCII digits that starts at `i`.
pub fn digits_end(s: &Vec<char>, i: usize) -> (r: usize)
    requires
        i <= s.len(),
    ensures
        i <= r <= s.len(),
        r - i == digit_run(s@.skip(i as int)),
{
    let mut j = i;
    while j < s.len() && '0' <= s[j] && s[j] <= '9'
        invariant
            i <= j <= s.len(),
            digit_run(s@.skip(i as int)) == (j - i) + digit_run(s@.skip(j as int)),
        decreases s.len() - j,
    {
        proof {
            lemma_digit_run_step(s@, j as int);
        }
        j += 1;
    }
    j
}

/// `s[lo..]` equals the lower-case word `w` up to ASCII case.
pub fn word_at(s: &Vec<char>, lo: usize, w: &[char]) -> (r: bool)
    requires
        lo <= s.len(),
    ensures
        r == eq_ignore_case(s@.skip(lo as int), w@),
{
    let ghost t = s@.skip(lo as int);
    if s.len() - lo != w.len() {
        return false;
    }
    let mut i: usize = 0;
    while i < w.len()
        invariant
            i <= w.len() == s.len() - lo,
            t == s@.skip(lo as int),
            forall|j: int| 0 <= j < i ==> ascii_lower(#[trigger] t[j]) == w@[j],
        decreases w.len() - i,
    {
        let c = s[lo + i];
        let l = if 'A' <= c && c <= 'Z' {
            ((c as u8) + 32) as char
        } else {
            c
        };
        assert(t[i as int] == c);
        if l != w[i] {
            return false;
        }
        i += 1;
    }
    true
}

/// Whether `s[k..]` is an exponent `[eE] Sign? Digit+`.
pub fn exponent_at(s: &Vec<char>, k: usize) -> (r: bool)
    requires
        k <= s.len(),
    ensures
        r == is_exponent(s@.skip(k as int)),
{
    let ghost t = s@.skip(k as int);
    if k == s.len() || !(s[k] == 'e' || s[k] == 'E') {
        return false;
    }
    assert(t.drop_first() =~= s@.skip(k + 1));
    let mut m = k + 1;
    if m < s.len() && (s[m] == '+' || s[m] == '-') {
        assert(s@.skip(k + 1).drop_first() =~= s@.skip(k + 2));
        m += 1;
    }
    let e = digits_end(s, m);
    e > m && e == s.len()
}

/// Whether `s[lo..]` is `(Digit+ | Digit+ '.' Digit* | Digit* '.' Digit+) Exp?`.
pub fn decimal_at(s: &Vec<char>, lo: usize) -> (r: bool)
    requires
        lo <= s.len(),
    ensures
        r == is_decimal(s@.skip(lo as int)),
{
    let ghost b = s@.skip(lo as int);
    let a_end = digits_end(s, lo);
    assert(b.skip(a_end - lo) =~= s@.skip(a_end as int));
    if a_end < s.len() && s[a_end] == '.' {
        assert(s@.skip(a_end as int).drop_first() =~= s@.skip(a_end + 1));
        let f_end = digits_end(s, a_end + 1);
        assert(s@.skip(a_end + 1).skip(f_end - (a_end + 1)) =~= s@.skip(f_end as int));
        if a_end - lo + (f_end - (a_end + 1)) < 1 {
            return false;
        }
        f_end == s.len() || exponent_at(s, f_end)
    } else {
        if a_end - lo < 1 {
            return false;
        }
        a_end == s.len() || exponent_at(s, a_end)
    }
}

/// Whether `str::parse::<f32>` accepts `s`.
pub fn is_float(s: &Vec<char>) -> (r: bool)
    ensures
        r == is_float_literal(s@),
{
    let lo: usize = if s.len() > 0 && (s[0] == '+' || s[0] == '-') {
        1
    } else {
        0
    };
    proof {
        if lo == 1 {
            assert(s@.skip(1) =~= s@.drop_first());
        } else {
            assert(s@.skip(0) =~= s@);
        }
    }
    let inf = ['i', 'n', 'f'];
    let infinity = ['i', 'n', 'f', 'i', 'n', 'i', 't', 'y'];
    let nan = ['n', 'a', 'n'];
    assert(inf@ =~= seq!['i', 'n', 'f']);
    assert(infinity@ =~= seq!['i', 'n', 'f', 'i', 'n', 'i', 't', 'y']);
    assert(nan@ =~= seq!['n', 'a', 'n']);
    word_at(s, lo, &inf) || word_at(s, lo, &infinity) || word_at(s, lo, &nan) || decimal_at(s, lo)
}

// ───────────────────────────── strings ─────────────────────────────

/// `String::push` appends one character.
pub assume_specification[ String::push ](s: &mut String, ch: char)
    ensures
        final(s)@ == old(s)@.push(ch),
;

/// The characters of `s`, in order.
pub fn chars_of(s: &str) -> (r: Vec<char>)
    ensures
        r@ == s@,
{
    broadcast use vstd::string::group_string_axioms;

    let mut v: Vec<char> = Vec::new();
    for c in it: s.chars()
        invariant
            v@ == it.seq().take(it.index() as int),
            it.seq() == s@,
    {
        v.push(c);
    }
    v
}

/// Appends the characters of `v` to `m`.
pub fn push_chars(m: &mut String, v: &Vec<char>)
    ensures
        final(m)@ == old(m)@ + v@,
{
    let mut i: usize = 0;
    while i < v.len()
        invariant
            i <= v.len(),
            m@ == old(m)@ + v@.take(i as int),
        decreases v.len() - i,
    {
        m.push(v[i]);
        i += 1;
        assert(m@ =~= old(m)@ + v@.take(i as int));
    }
    assert(v@.take(v.len() as int) =~= v@);
}

/// A `String` holding the characters of `v`.
pub fn string_of(v: &Vec<char>) -> (r: String)
    ensures
        r@ == v@,
{
    let mut r = String::new();
    push_chars(&mut r, v);
    assert(r@ =~= v@);
    r
}

/// Whether the characters of `v` spell `lit`.
pub fn eq_str(v: &Vec<char>, lit: &str) -> (r: bool)
    ensures
        r == (v@ == lit@),
{
    let w = chars_of(lit);
    if w.len() != v.len() {
        return false;
    }
    let mut i: usize = 0;
    while i < w.len()
        invariant
            i <= w.len() == v.len(),
            w@ == lit@,
            forall|j: int| 0 <= j < i ==> v@[j] == w@[j],
        decreases w.len() - i,
    {
        if v[i] != w[i] {
            assert(v@[i as int] != lit@[i as int]);
            return false;
        }
        i += 1;
    }
    assert(v@ =~= w@);
    true
}

/// The character of a decimal digit.
pub open spec fn digit_char(d: nat) -> char {
    ((d + 48) as u8) as char
}

/// Decimal rendering of `n`, as `{}` formats an unsigned integer.
pub open spec fn decimal(n: nat) -> Seq<char>
    decreases n,
{
    if n < 10 {
        seq![digit_char(n)]
    } else {
        decimal(n / 10).push(digit_char(n % 10))
    }
}

/// Appends the decimal rendering of `n` to `m`.
pub fn push_decimal(m: &mut String, n: usize)
    ensures
        final(m)@ == old(m)@ + decimal(n as nat),
    decreases n,
{
    if n >= 10 {
        push_decimal(m, n / 10);
    }
    let d = (n % 10) as u8;
    m.push((d + 48) as char);
    assert(m@ =~= old(m)@ + decimal(n as nat));
}

} // verus!
