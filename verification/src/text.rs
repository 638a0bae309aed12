//! Character-level text utilities: whitespace, lines, tokens, prefixes,
//! decimal numbers. Every function works on `Seq<char>` views of `str`.
use vstd::prelude::*;

verus! {

/// The Unicode `White_Space` property, as used by `char::is_whitespace`,
/// `str::trim_start`, `str::trim_end` and `str::split_whitespace`.
pub open spec fn is_ws(c: char) -> bool {
    let u = c as u32;
    ||| 0x9 <= u <= 0xd
    ||| u == 0x20
    ||| u == 0x85
    ||| u == 0xa0
    ||| u == 0x1680
    ||| 0x2000 <= u <= 0x200a
    ||| u == 0x2028
    ||| u == 0x2029
    ||| u == 0x202f
    ||| u == 0x205f
    ||| u == 0x3000
}

/// ASCII decimal digit `'0'..='9'`.
pub open spec fn is_digit(c: char) -> bool {
    48 <= (c as u32) <= 57
}

/// The value of an ASCII digit.
pub open spec fn digit_value(c: char) -> nat {
    ((c as u32) - 48) as nat
}

/// The ASCII digit of a value below ten.
pub open spec fn digit_char(d: nat) -> char {
    (48 + d) as char
}

pub fn is_whitespace(c: char) -> (r: bool)
    ensures
        r == is_ws(c),
{
    let u = c as u32;
    (0x9 <= u && u <= 0xd) || u == 0x20 || u == 0x85 || u == 0xa0 || u == 0x1680 || (0x2000
        <= u && u <= 0x200a) || u == 0x2028 || u == 0x2029 || u == 0x202f || u == 0x205f || u
        == 0x3000
}

pub fn is_ascii_digit(c: char) -> (r: bool)
    ensures
        r == is_digit(c),
{
    let u = c as u32;
    48 <= u && u <= 57
}

/// The characters of a string slice, in order.
pub fn chars_of(s: &str) -> (v: Vec<char>)
    ensures
        v@ == s@,
{
    let mut v: Vec<char> = Vec::new();
    for c in it: s.chars()
        invariant
            v@ == it.seq().take(it.index() as int),
    {
        v.push(c);
    }
    assert(v@ =~= s@);
    v
}

/// `String::push`.
#[verifier::external_body]
pub(crate) fn push_char(s: &mut String, c: char)
    ensures
        final(s)@ == old(s)@.push(c),
{
    s.push(c);
}

/// The string made of `v[lo..hi]`.
pub fn string_of(v: &Vec<char>, lo: usize, hi: usize) -> (s: String)
    requires
        lo <= hi <= v@.len(),
    ensures
        s@ == v@.subrange(lo as int, hi as int),
{
    let mut s = String::new();
    let mut i = lo;
    while i < hi
        invariant
            lo <= i <= hi <= v@.len(),
            s@ == v@.subrange(lo as int, i as int),
        decreases hi - i,
    {
        push_char(&mut s, v[i]);
        i = i + 1;
        assert(s@ =~= v@.subrange(lo as int, i as int));
    }
    s
}


/// `s` without its trailing whitespace (`str::trim_end`).
pub open spec fn trim_end_ws(s: Seq<char>) -> Seq<char>
    decreases s.len(),
{
    if s.len() > 0 && is_ws(s.last()) {
        trim_end_ws(s.drop_last())
    } else {
        s
    }
}

/// `s` without its leading whitespace (`str::trim_start`).
pub open spec fn trim_start_ws(s: Seq<char>) -> Seq<char>
    decreases s.len(),
{
    if s.len() > 0 && is_ws(s[0]) {
        trim_start_ws(s.drop_first())
    } else {
        s
    }
}

/// Index of the first `c` in `s`, or `s.len()` when there is none.
pub open spec fn find_char(s: Seq<char>, c: char) -> nat
    decreases s.len(),
{
    if s.len() == 0 {
        0
    } else if s[0] == c {
        0
    } else {
        1 + find_char(s.drop_first(), c)
    }
}

/// `s` without one trailing carriage return.
pub open spec fn strip_cr(s: Seq<char>) -> Seq<char> {
    if s.len() > 0 && s.last() == '\r' {
        s.drop_last()
    } else {
        s
    }
}

pub proof fn lemma_find_char_bound(s: Seq<char>, c: char)
    ensures
        find_char(s, c) <= s.len(),
        find_char(s, c) < s.len() ==> s[find_char(s, c) as int] == c,
        forall|j: int| 0 <= j < find_char(s, c) ==> s[j] != c,
    decreases s.len(),
{
    if s.len() > 0 && s[0] != c {
        lemma_find_char_bound(s.drop_first(), c);
        assert forall|j: int| 0 <= j < find_char(s, c) implies s[j] != c by {
            if j > 0 {
                assert(s[j] == s.drop_first()[j - 1]);
            }
        }
    }
}

/// The lines of `s` as `str::lines` yields them: pieces separated by `'\n'`,
/// each without a `'\r'` that stood just before its `'\n'`; no final empty
/// piece after a trailing `'\n'`.
pub open spec fn lines(s: Seq<char>) -> Seq<Seq<char>>
    decreases s.len(),
{
    if s.len() == 0 {
        seq![]
    } else {
        let i = find_char(s, '\n');
        if i >= s.len() {
            seq![s]
        } else {
            seq![strip_cr(s.take(i as int))] + lines(s.skip((i + 1) as int))
        }
    }
}

/// The pieces of `s` between occurrences of `c` (`str::split` with a char).
pub open spec fn split_char(s: Seq<char>, c: char) -> Seq<Seq<char>>
    decreases s.len(),
{
    let i = find_char(s, c);
    if i >= s.len() {
        seq![s]
    } else {
        seq![s.take(i as int)] + split_char(s.skip((i + 1) as int), c)
    }
}

/// Number of leading non-whitespace characters.
pub open spec fn word_len(s: Seq<char>) -> nat
    decreases s.len(),
{
    if s.len() == 0 || is_ws(s[0]) {
        0
    } else {
        1 + word_len(s.drop_first())
    }
}

pub proof fn lemma_word_len_bound(s: Seq<char>)
    ensures
        word_len(s) <= s.len(),
        forall|j: int| 0 <= j < word_len(s) ==> !is_ws(s[j]),
        word_len(s) < s.len() ==> is_ws(s[word_len(s) as int]),
    decreases s.len(),
{
    if s.len() > 0 && !is_ws(s[0]) {
        lemma_word_len_bound(s.drop_first());
        assert forall|j: int| 0 <= j < word_len(s) implies !is_ws(s[j]) by {
            if j > 0 {
                assert(s[j] == s.drop_first()[j - 1]);
            }
        }
    }
}

/// The whitespace-separated words of `s` (`str::split_whitespace`).
pub open spec fn tokens(s: Seq<char>) -> Seq<Seq<char>>
    decreases s.len(),
{
    if s.len() == 0 {
        seq![]
    } else if is_ws(s[0]) {
        tokens(s.drop_first())
    } else {
        let k = word_len(s);
        proof {
            lemma_word_len_bound(s);
        }
        seq![s.take(k as int)] + tokens(s.skip(k as int))
    }
}

/// `p` is a prefix of `s`.
pub open spec fn has_prefix(s: Seq<char>, p: Seq<char>) -> bool {
    p.len() <= s.len() && s.take(p.len() as int) == p
}

/// `p` occurs in `s` as a contiguous piece.
pub open spec fn contains_seq(s: Seq<char>, p: Seq<char>) -> bool {
    exists|i: int| 0 <= i && i + p.len() <= s.len() && #[trigger] s.subrange(i, i + p.len()) == p
}

/// Decimal digits of `n`, without leading zeros (`u64::to_string`).
pub open spec fn decimal(n: nat) -> Seq<char>
    decreases n,
{
    if n < 10 {
        seq![digit_char(n)]
    } else {
        decimal(n / 10).push(digit_char(n % 10))
    }
}

/// Value of a string of decimal digits.
pub open spec fn digits_value(s: Seq<char>) -> nat
    decreases s.len(),
{
    if s.len() == 0 {
        0
    } else {
        digits_value(s.drop_last()) * 10 + digit_value(s.last())
    }
}

pub open spec fn all_digits(s: Seq<char>) -> bool {
    forall|i: int| 0 <= i < s.len() ==> is_digit(#[trigger] s[i])
}

/// `str::parse::<u64>`: an optional `+`, then at least one ASCII digit, with a
/// value that fits in `u64`.
pub open spec fn parse_u64_spec(s: Seq<char>) -> Option<u64> {
    let body = if s.len() > 0 && s[0] == '+' {
        s.drop_first()
    } else {
        s
    };
    if body.len() > 0 && all_digits(body) && digits_value(body) <= u64::MAX {
        Some(digits_value(body) as u64)
    } else {
        None
    }
}


/// End of `v[lo..hi]` once trailing whitespace is removed.
pub fn trim_end_index(v: &Vec<char>, lo: usize, hi: usize) -> (e: usize)
    requires
        lo <= hi <= v@.len(),
    ensures
        lo <= e <= hi,
        v@.subrange(lo as int, e as int) == trim_end_ws(v@.subrange(lo as int, hi as int)),
        e > lo ==> !is_ws(v@[e - 1]),
{
    let mut e = hi;
    while e > lo && is_whitespace(v[e - 1])
        invariant
            lo <= e <= hi <= v@.len(),
            trim_end_ws(v@.subrange(lo as int, hi as int)) == trim_end_ws(
                v@.subrange(lo as int, e as int),
            ),
        decreases e,
    {
        assert(v@.subrange(lo as int, e as int).drop_last() =~= v@.subrange(
            lo as int,
            e - 1,
        ));
        e = e - 1;
    }
    e
}

/// Start of `v[lo..hi]` once leading whitespace is removed.
pub fn trim_start_index(v: &Vec<char>, lo: usize, hi: usize) -> (b: usize)
    requires
        lo <= hi <= v@.len(),
    ensures
        lo <= b <= hi,
        v@.subrange(b as int, hi as int) == trim_start_ws(v@.subrange(lo as int, hi as int)),
        b < hi ==> !is_ws(v@[b as int]),
{
    let mut b = lo;
    while b < hi && is_whitespace(v[b])
        invariant
            lo <= b <= hi <= v@.len(),
            trim_start_ws(v@.subrange(lo as int, hi as int)) == trim_start_ws(
                v@.subrange(b as int, hi as int),
            ),
        decreases hi - b,
    {
        assert(v@.subrange(b as int, hi as int).drop_first() =~= v@.subrange(
            b + 1,
            hi as int,
        ));
        b = b + 1;
    }
    b
}

/// Position of the first `c` in `v[lo..hi]`, or `hi`.
pub fn find_char_index(v: &Vec<char>, lo: usize, hi: usize, c: char) -> (i: usize)
    requires
        lo <= hi <= v@.len(),
    ensures
        lo <= i <= hi,
        i - lo == find_char(v@.subrange(lo as int, hi as int), c),
{
    let mut i = lo;
    while i < hi && v[i] != c
        invariant
            lo <= i <= hi <= v@.len(),
            find_char(v@.subrange(lo as int, hi as int), c) == (i - lo) + find_char(
                v@.subrange(i as int, hi as int),
                c,
            ),
        decreases hi - i,
    {
        assert(v@.subrange(i as int, hi as int).drop_first() =~= v@.subrange(
            i + 1,
            hi as int,
        ));
        i = i + 1;
    }
    i
}

/// The first line of `v[pos..]`: its text, without its line break, is
/// `v[pos..r.0]`, and the next line starts at `r.1`.
pub fn next_line(v: &Vec<char>, pos: usize) -> (r: (usize, usize))
    requires
        pos < v@.len(),
    ensures
        pos <= r.0 <= r.1 <= v@.len(),
        pos < r.1,
        lines(v@.subrange(pos as int, v@.len() as int)).len() > 0,
        lines(v@.subrange(pos as int, v@.len() as int))[0] == v@.subrange(pos as int, r.0 as int),
        lines(v@.subrange(pos as int, v@.len() as int)).drop_first() == lines(
            v@.subrange(r.1 as int, v@.len() as int),
        ),
{
    let n = v.len();
    let ghost rest = v@.subrange(pos as int, n as int);
    let i = find_char_index(v, pos, n, '\n');
    proof {
        lemma_find_char_bound(rest, '\n');
    }
    let mut le = i;
    if i < n && i > pos && v[i - 1] == '\r' {
        le = i - 1;
    }
    let ghost raw = v@.subrange(pos as int, i as int);
    proof {
        if i < n {
            assert(rest.take(i - pos) =~= raw);
            assert(rest.skip(i - pos + 1) =~= v@.subrange(i + 1, n as int));
            assert(strip_cr(raw) =~= v@.subrange(pos as int, le as int));
        } else {
            assert(raw =~= rest);
            assert(v@.subrange(n as int, n as int) =~= Seq::<char>::empty());
        }
    }
    let next = if i < n {
        i + 1
    } else {
        n
    };
    (le, next)
}

pub proof fn lemma_tokens_skip_ws(s: Seq<char>, t: Seq<char>)
    requires
        t == trim_start_ws(s),
    ensures
        tokens(s) == tokens(t),
    decreases s.len(),
{
    if s.len() > 0 && is_ws(s[0]) {
        lemma_tokens_skip_ws(s.drop_first(), t);
    }
}

/// The first whitespace-separated word of `v[lo..hi]`, as a range, if any.
pub fn next_token(v: &Vec<char>, lo: usize, hi: usize) -> (r: Option<(usize, usize)>)
    requires
        lo <= hi <= v@.len(),
    ensures
        r is None ==> tokens(v@.subrange(lo as int, hi as int)) == Seq::<Seq<char>>::empty(),
        r matches Some((b, e)) ==> {
            &&& lo <= b < e <= hi
            &&& tokens(v@.subrange(lo as int, hi as int)) == seq![v@.subrange(b as int, e as int)]
                + tokens(v@.subrange(e as int, hi as int))
        },
{
    let b = trim_start_index(v, lo, hi);
    proof {
        lemma_tokens_skip_ws(v@.subrange(lo as int, hi as int), v@.subrange(b as int, hi as int));
    }
    if b == hi {
        return None;
    }
    let mut e = b;
    while e < hi && !is_whitespace(v[e])
        invariant
            b <= e <= hi <= v@.len(),
            word_len(v@.subrange(b as int, hi as int)) == (e - b) + word_len(
                v@.subrange(e as int, hi as int),
            ),
        decreases hi - e,
    {
        assert(v@.subrange(e as int, hi as int).drop_first() =~= v@.subrange(
            e + 1,
            hi as int,
        ));
        e = e + 1;
    }
    let ghost t = v@.subrange(b as int, hi as int);
    proof {
        assert(!is_ws(t[0]));
        assert(word_len(t) == e - b);
        assert(t.take(e - b) =~= v@.subrange(b as int, e as int));
        assert(t.skip(e - b) =~= v@.subrange(e as int, hi as int));
    }
    Some((b, e))
}

/// Whether `v[lo..hi]` starts with `p`.
pub fn has_prefix_at(v: &Vec<char>, lo: usize, hi: usize, p: &Vec<char>) -> (r: bool)
    requires
        lo <= hi <= v@.len(),
    ensures
        r == has_prefix(v@.subrange(lo as int, hi as int), p@),
{
    if p.len() > hi - lo {
        return false;
    }
    let mut j: usize = 0;
    while j < p.len()
        invariant
            p@.len() <= hi - lo,
            lo <= hi <= v@.len(),
            j <= p@.len(),
            forall|k: int| 0 <= k < j ==> v@[lo + k] == p@[k],
        decreases p@.len() - j,
    {
        if v[lo + j] != p[j] {
            assert(v@.subrange(lo as int, hi as int).take(p@.len() as int)[j as int] != p@[j as int]);
            return false;
        }
        j = j + 1;
    }
    assert(v@.subrange(lo as int, hi as int).take(p@.len() as int) =~= p@);
    true
}

/// Whether `p` occurs in `v[lo..hi]`.
pub fn contains_at(v: &Vec<char>, lo: usize, hi: usize, p: &Vec<char>) -> (r: bool)
    requires
        lo <= hi <= v@.len(),
    ensures
        r == contains_seq(v@.subrange(lo as int, hi as int), p@),
{
    let ghost s = v@.subrange(lo as int, hi as int);
    if p.len() > hi - lo {
        return false;
    }
    if p.len() == 0 {
        assert(s.subrange(0, 0 + p@.len() as int) =~= p@);
        return true;
    }
    let last = hi - p.len();
    let mut i = lo;
    while i <= last
        invariant
            lo <= i <= last + 1,
            last + p@.len() == hi,
            hi <= v@.len(),
            p@.len() <= hi - lo,
            s == v@.subrange(lo as int, hi as int),
            p@.len() > 0,
            forall|k: int| 0 <= k < i - lo ==> #[trigger] s.subrange(k, k + p@.len()) != p@,
        decreases last + 1 - i,
    {
        if has_prefix_at(v, i, hi, p) {
            assert(s.subrange(i - lo, i - lo + p@.len()) =~= v@.subrange(i as int, hi as int).take(
                p@.len() as int,
            ));
            return true;
        }
        assert(s.subrange(i - lo, i - lo + p@.len()) =~= v@.subrange(i as int, hi as int).take(
            p@.len() as int,
        ));
        i = i + 1;
    }
    assert forall|k: int| 0 <= k && k + p@.len() <= s.len() implies #[trigger] s.subrange(
        k,
        k + p@.len(),
    ) != p@ by {}
    false
}


fn digit_of(d: u64) -> (c: char)
    requires
        d < 10,
    ensures
        c == digit_char(d as nat),
{
    let b: u8 = 48u8 + d as u8;
    b as char
}

/// `n.to_string()`: the decimal digits of `n`.
pub fn decimal_string(n: u64) -> (s: String)
    ensures
        s@ == decimal(n as nat),
    decreases n,
{
    if n < 10 {
        let mut s = String::new();
        push_char(&mut s, digit_of(n));
        assert(s@ =~= decimal(n as nat));
        s
    } else {
        let mut s = decimal_string(n / 10);
        push_char(&mut s, digit_of(n % 10));
        s
    }
}

pub proof fn lemma_digits_value_prefix(s: Seq<char>, k: int)
    requires
        0 <= k <= s.len(),
    ensures
        digits_value(s.take(k)) <= digits_value(s),
    decreases s.len(),
{
    if k < s.len() {
        assert(s.drop_last().take(k) =~= s.take(k));
        lemma_digits_value_prefix(s.drop_last(), k);
    } else {
        assert(s.take(k) =~= s);
    }
}

/// `str::parse::<u64>` on `v[lo..hi]`.
pub fn parse_u64_at(v: &Vec<char>, lo: usize, hi: usize) -> (r: Option<u64>)
    requires
        lo <= hi <= v@.len(),
    ensures
        r == parse_u64_spec(v@.subrange(lo as int, hi as int)),
{
    let ghost s = v@.subrange(lo as int, hi as int);
    let mut start = lo;
    if lo < hi && v[lo] == '+' {
        start = lo + 1;
    }
    let ghost body = v@.subrange(start as int, hi as int);
    assert(body =~= (if s.len() > 0 && s[0] == '+' {
        s.drop_first()
    } else {
        s
    }));
    if start == hi {
        return None;
    }
    let mut acc: u64 = 0;
    let mut i = start;
    while i < hi
        invariant
            lo <= start <= i <= hi <= v@.len(),
            body == v@.subrange(start as int, hi as int),
            s == v@.subrange(lo as int, hi as int),
            body == (if s.len() > 0 && s[0] == '+' {
                s.drop_first()
            } else {
                s
            }),
            all_digits(v@.subrange(start as int, i as int)),
            acc == digits_value(v@.subrange(start as int, i as int)),
        decreases hi - i,
    {
        let c = v[i];
        if !is_ascii_digit(c) {
            assert(body[i - start] == c);
            assert(!is_digit(body[i - start]));
            return None;
        }
        let d = (c as u32 - 48) as u64;
        let ghost next = v@.subrange(start as int, i + 1);
        assert(next.drop_last() =~= v@.subrange(start as int, i as int));
        assert(digits_value(next) == acc * 10 + d);
        if acc > (u64::MAX - d) / 10 {
            assert(acc * 10 + d > u64::MAX) by (nonlinear_arith)
                requires
                    acc > (u64::MAX - d) / 10,
                    d < 10,
            ;
            proof {
                assert(body.take(i + 1 - start) =~= next);
                lemma_digits_value_prefix(body, i + 1 - start);
            }
            return None;
        }
        assert(acc * 10 + d <= u64::MAX) by (nonlinear_arith)
            requires
                acc <= (u64::MAX - d) / 10,
                d < 10,
        ;
        acc = acc * 10 + d;
        i = i + 1;
    }
    assert(v@.subrange(start as int, i as int) =~= body);
    Some(acc)
}

} // verus!
