//! Character-level text helpers shared by the markup and stylesheet parsers.
//!
//! Text is handled as sequences of `char`s. Lowercasing comes from std behind
//! a trusted wrapper; everything else, the Unicode white-space set included,
//! is written and proved here.
use vstd::prelude::*;

verus! {

/// Whether `c` has the Unicode `White_Space` property (the characters that
/// `char::is_whitespace` accepts): tab, line feed, vertical tab, form feed,
/// carriage return, space, next line, no-break space, ogham space mark, the
/// spaces U+2000 to U+200A, line and paragraph separators, narrow no-break
/// space, medium mathematical space and ideographic space.
pub open spec fn is_white_space(c: char) -> bool {
    ||| '\u{9}' <= c <= '\u{d}'
    ||| c == ' '
    ||| c == '\u{85}'
    ||| c == '\u{a0}'
    ||| c == '\u{1680}'
    ||| '\u{2000}' <= c <= '\u{200a}'
    ||| c == '\u{2028}'
    ||| c == '\u{2029}'
    ||| c == '\u{202f}'
    ||| c == '\u{205f}'
    ||| c == '\u{3000}'
}

/// The lowercase form of a string, as `str::to_lowercase` computes it.
pub uninterp spec fn lowercase(s: Seq<char>) -> Seq<char>;

/// Whether `c` is white space, as `is_white_space` states it.
pub(crate) fn char_is_whitespace(c: char) -> (b: bool)
    ensures
        b == is_white_space(c),
{
    ('\u{9}' <= c && c <= '\u{d}') || c == ' ' || c == '\u{85}' || c == '\u{a0}' || c
        == '\u{1680}' || ('\u{2000}' <= c && c <= '\u{200a}') || c == '\u{2028}' || c
        == '\u{2029}' || c == '\u{202f}' || c == '\u{205f}' || c == '\u{3000}'
}

/// Calls `str::to_lowercase` on the string made of `cs`. Claimed: the result is
/// the named function `lowercase` of the input characters; nothing more is stated
/// of Unicode lowercasing.
#[verifier::external_body]
pub(crate) fn to_lowercase(cs: &[char]) -> (r: Vec<char>)
    ensures
        r@ == lowercase(cs@),
{
    let s: String = cs.iter().collect();
    s.to_lowercase().chars().collect()
}

/// The string made of the characters `cs`, in order.
pub(crate) fn string_from(cs: &[char]) -> (s: String)
    ensures
        s@ == cs@,
{
    let mut s = String::new();
    push_chars(&mut s, cs);
    assert(s@ =~= cs@);
    s
}

/// Appends one character to a `String` (`String::push`). Claimed: the new
/// contents are the old contents followed by `c`.
#[verifier::external_body]
pub(crate) fn push_char(s: &mut String, c: char)
    ensures
        final(s)@ == old(s)@.push(c),
{
    s.push(c);
}

/// The characters of a string slice.
pub fn chars_of(s: &str) -> (v: Vec<char>)
    ensures
        v@ == s@,
{
    let mut v: Vec<char> = Vec::new();
    let n = s.unicode_len();
    let mut i: usize = 0;
    while i < n
        invariant
            n == s@.len(),
            i <= n,
            v@ == s@.subrange(0, i as int),
        decreases n - i,
    {
        v.push(s.get_char(i));
        i = i + 1;
        assert(v@ =~= s@.subrange(0, i as int));
    }
    assert(v@ =~= s@);
    v
}

/// `s` with its leading white space removed (`str::trim_start`).
pub open spec fn trim_start(s: Seq<char>) -> Seq<char>
    decreases s.len(),
{
    if s.len() > 0 && is_white_space(s[0]) {
        trim_start(s.drop_first())
    } else {
        s
    }
}

/// `s` with its trailing white space removed (`str::trim_end`).
pub open spec fn trim_end(s: Seq<char>) -> Seq<char>
    decreases s.len(),
{
    if s.len() > 0 && is_white_space(s.last()) {
        trim_end(s.drop_last())
    } else {
        s
    }
}

/// `s` with leading and trailing white space removed (`str::trim`).
pub open spec fn trim(s: Seq<char>) -> Seq<char> {
    trim_end(trim_start(s))
}

/// Number of leading white-space characters of `s`.
proof fn lemma_trim_start_skip(s: Seq<char>, i: int)
    requires
        0 <= i <= s.len(),
        forall|k: int| 0 <= k < i ==> is_white_space(#[trigger] s[k]),
    ensures
        trim_start(s) == trim_start(s.subrange(i, s.len() as int)),
    decreases i,
{
    if i > 0 {
        lemma_trim_start_skip(s.drop_first(), i - 1);
        assert(s.drop_first().subrange(i - 1, s.drop_first().len() as int) =~= s.subrange(
            i,
            s.len() as int,
        ));
    } else {
        assert(s.subrange(0, s.len() as int) =~= s);
    }
}

proof fn lemma_trim_end_skip(s: Seq<char>, j: int)
    requires
        0 <= j <= s.len(),
        forall|k: int| j <= k < s.len() ==> is_white_space(#[trigger] s[k]),
    ensures
        trim_end(s) == trim_end(s.subrange(0, j)),
    decreases s.len() - j,
{
    if j < s.len() {
        lemma_trim_end_skip(s.drop_last(), j);
        assert(s.drop_last().subrange(0, j) =~= s.subrange(0, j));
    } else {
        assert(s.subrange(0, j) =~= s);
    }
}

/// Leading white space of `x` goes; `y`, which starts with another character, stays.
pub proof fn lemma_trim_start_concat(x: Seq<char>, y: Seq<char>)
    requires
        y.len() > 0,
        !is_white_space(y[0]),
    ensures
        trim_start(x + y) == trim_start(x) + y,
    decreases x.len(),
{
    if x.len() > 0 {
        assert((x + y).drop_first() =~= x.drop_first() + y);
        lemma_trim_start_concat(x.drop_first(), y);
    } else {
        assert(x + y =~= y);
        assert(trim_start(x) + y =~= y);
    }
}

/// What trimming the start leaves is the tail of `x` after some point.
pub proof fn lemma_trim_start_suffix(x: Seq<char>)
    ensures
        exists|k: int| 0 <= k <= x.len() && trim_start(x) == x.subrange(k, x.len() as int),
    decreases x.len(),
{
    if x.len() > 0 && is_white_space(x[0]) {
        lemma_trim_start_suffix(x.drop_first());
        let k = choose|k: int|
            0 <= k <= x.drop_first().len() && trim_start(x.drop_first()) == x.drop_first().subrange(
                k,
                x.drop_first().len() as int,
            );
        assert(x.drop_first().subrange(k, x.drop_first().len() as int) =~= x.subrange(
            k + 1,
            x.len() as int,
        ));
    } else {
        assert(x.subrange(0, x.len() as int) =~= x);
    }
}

/// Trimming the start twice trims it once.
pub proof fn lemma_trim_start_idem(x: Seq<char>)
    ensures
        trim_start(trim_start(x)) == trim_start(x),
    decreases x.len(),
{
    if x.len() > 0 && is_white_space(x[0]) {
        lemma_trim_start_idem(x.drop_first());
    }
}

/// The first `c` at or after `from` is at `e` when none comes before it.
pub proof fn lemma_find_exact(s: Seq<char>, c: char, from: int, e: int)
    requires
        0 <= from <= e <= s.len(),
        forall|j: int| from <= j < e ==> s[j] != c,
        e == s.len() || s[e] == c,
    ensures
        find_from(s, c, from) == e,
    decreases e - from,
{
    if from < e {
        lemma_find_exact(s, c, from + 1, e);
    }
}

/// The characters `s[a..b]`.
pub fn slice_of(s: &[char], a: usize, b: usize) -> (r: Vec<char>)
    requires
        a <= b <= s@.len(),
    ensures
        r@ == s@.subrange(a as int, b as int),
{
    let mut r: Vec<char> = Vec::new();
    let mut i = a;
    while i < b
        invariant
            a <= i <= b,
            b <= s@.len(),
            r@ == s@.subrange(a as int, i as int),
        decreases b - i,
    {
        r.push(s[i]);
        i = i + 1;
        assert(r@ =~= s@.subrange(a as int, i as int));
    }
    r
}

/// `s` with leading and trailing white space removed.
pub fn trim_chars(s: &[char]) -> (r: Vec<char>)
    ensures
        r@ == trim(s@),
{
    let n = s.len();
    let mut a: usize = 0;
    while a < n && char_is_whitespace(s[a])
        invariant
            n == s@.len(),
            a <= n,
            forall|k: int| 0 <= k < a ==> is_white_space(#[trigger] s@[k]),
        decreases n - a,
    {
        a = a + 1;
    }
    proof {
        lemma_trim_start_skip(s@, a as int);
    }
    let ghost rest = s@.subrange(a as int, n as int);
    assert(rest.len() == 0 || !is_white_space(rest[0]));
    assert(trim_start(rest) == rest);
    let mut b: usize = n;
    while b > a && char_is_whitespace(s[b - 1])
        invariant
            n == s@.len(),
            a <= b <= n,
            forall|k: int| b <= k < n ==> is_white_space(#[trigger] s@[k]),
        decreases b,
    {
        b = b - 1;
    }
    proof {
        assert forall|k: int| b - a <= k < rest.len() implies is_white_space(#[trigger] rest[k]) by {
            assert(rest[k] == s@[k + a]);
        }
        lemma_trim_end_skip(rest, b - a);
        assert(rest.subrange(0, b - a) =~= s@.subrange(a as int, b as int));
        let t = s@.subrange(a as int, b as int);
        assert(t.len() == 0 || !is_white_space(t.last()));
    }
    slice_of(s, a, b)
}

/// Whether `a` spells exactly the string `lit`.
pub fn eq_lit(a: &[char], lit: &str) -> (r: bool)
    ensures
        r == (a@ == lit@),
{
    let n = lit.unicode_len();
    if a.len() != n {
        return false;
    }
    let mut i: usize = 0;
    while i < n
        invariant
            n == lit@.len(),
            n == a@.len(),
            i <= n,
            forall|k: int| 0 <= k < i ==> a@[k] == lit@[k],
        decreases n - i,
    {
        if a[i] != lit.get_char(i) {
            return false;
        }
        i = i + 1;
    }
    assert(a@ =~= lit@);
    true
}

/// Whether `a` and `b` hold the same characters.
pub fn eq_chars(a: &[char], b: &[char]) -> (r: bool)
    ensures
        r == (a@ == b@),
{
    if a.len() != b.len() {
        return false;
    }
    let mut i: usize = 0;
    while i < a.len()
        invariant
            a@.len() == b@.len(),
            i <= a@.len(),
            forall|k: int| 0 <= k < i ==> a@[k] == b@[k],
        decreases a@.len() - i,
    {
        if a[i] != b[i] {
            return false;
        }
        i = i + 1;
    }
    assert(a@ =~= b@);
    true
}

/// First position at or after `from` holding `c`, or `s.len()` when there is none.
pub open spec fn find_from(s: Seq<char>, c: char, from: int) -> int
    decreases s.len() - from,
{
    if from >= s.len() {
        s.len() as int
    } else if s[from] == c {
        from
    } else {
        find_from(s, c, from + 1)
    }
}

pub proof fn lemma_find_from(s: Seq<char>, c: char, from: int)
    requires
        0 <= from <= s.len(),
    ensures
        from <= find_from(s, c, from) <= s.len(),
        find_from(s, c, from) < s.len() ==> s[find_from(s, c, from)] == c,
        forall|k: int| from <= k < find_from(s, c, from) ==> s[k] != c,
    decreases s.len() - from,
{
    if from < s.len() && s[from] != c {
        lemma_find_from(s, c, from + 1);
    }
}

/// First position at or after `from` holding `c`, or `s.len()`.
pub fn find_char(s: &[char], c: char, from: usize) -> (r: usize)
    requires
        from <= s@.len(),
    ensures
        r == find_from(s@, c, from as int),
{
    let mut i = from;
    while i < s.len() && s[i] != c
        invariant
            from <= i <= s@.len(),
            find_from(s@, c, from as int) == find_from(s@, c, i as int),
        decreases s@.len() - i,
    {
        i = i + 1;
    }
    i
}

/// Whether `c` occurs in `s`.
pub fn contains_char(s: &[char], c: char) -> (r: bool)
    ensures
        r == s@.contains(c),
{
    let i = find_char(s, c, 0);
    proof {
        lemma_find_from(s@, c, 0);
        if s@.contains(c) {
            let k = choose|k: int| 0 <= k < s@.len() && s@[k] == c;
            assert(k >= i);
        }
    }
    i < s.len()
}

/// Index of the last occurrence of `c` in `s` (`str::rfind`).
pub open spec fn last_index_of(s: Seq<char>, c: char) -> Option<int>
    decreases s.len(),
{
    if s.len() == 0 {
        None
    } else if s.last() == c {
        Some(s.len() - 1)
    } else {
        last_index_of(s.drop_last(), c)
    }
}

pub fn rfind_char(s: &[char], c: char) -> (r: Option<usize>)
    ensures
        r matches Some(i) ==> last_index_of(s@, c) == Some(i as int) && i < s@.len(),
        r is None ==> last_index_of(s@, c) is None,
{
    let mut j = s.len();
    assert(s@.subrange(0, j as int) =~= s@);
    while j > 0 && s[j - 1] != c
        invariant
            j <= s@.len(),
            last_index_of(s@, c) == last_index_of(s@.subrange(0, j as int), c),
        decreases j,
    {
        assert(s@.subrange(0, j as int).drop_last() =~= s@.subrange(0, j - 1));
        j = j - 1;
    }
    if j == 0 {
        assert(s@.subrange(0, 0).len() == 0);
        None
    } else {
        Some(j - 1)
    }
}

/// The pieces of `s` between occurrences of `sep`, from position `from` on (`str::split`).
pub open spec fn split_from(s: Seq<char>, sep: char, from: int) -> Seq<Seq<char>>
    decreases s.len() - from,
{
    let e = find_from(s, sep, from);
    proof {
        if 0 <= from <= s.len() {
            lemma_find_from(s, sep, from);
        }
    }
    if from < 0 || from > s.len() || e >= s.len() {
        seq![s.subrange(from, s.len() as int)]
    } else {
        seq![s.subrange(from, e)] + split_from(s, sep, e + 1)
    }
}

/// The pieces of `s` separated by `sep`; an empty `s` gives one empty piece.
pub open spec fn split_on(s: Seq<char>, sep: char) -> Seq<Seq<char>> {
    split_from(s, sep, 0)
}

/// Splits `s` at every `sep`, like `str::split` with a `char` pattern.
pub fn split_chars(s: &[char], sep: char) -> (r: Vec<Vec<char>>)
    ensures
        r@.len() == split_on(s@, sep).len(),
        forall|k: int| 0 <= k < r@.len() ==> #[trigger] r@[k]@ == split_on(s@, sep)[k],
{
    let mut r: Vec<Vec<char>> = Vec::new();
    let mut from: usize = 0;
    let ghost done: Seq<Seq<char>> = seq![];
    loop
        invariant
            from <= s@.len(),
            r@.len() == done.len(),
            forall|k: int| 0 <= k < r@.len() ==> #[trigger] r@[k]@ == done[k],
            split_on(s@, sep) == done + split_from(s@, sep, from as int),
        decreases s@.len() - from,
    {
        let e = find_char(s, sep, from);
        proof {
            lemma_find_from(s@, sep, from as int);
        }
        let piece = slice_of(s, from, e);
        if e >= s.len() {
            r.push(piece);
            proof {
                done = done.push(piece@);
                assert(split_on(s@, sep) =~= done);
            }
            return r;
        }
        r.push(piece);
        proof {
            let old_done = done;
            done = done.push(piece@);
            assert(split_from(s@, sep, from as int) == seq![piece@] + split_from(s@, sep, e + 1));
            assert(old_done + (seq![piece@] + split_from(s@, sep, e + 1)) =~= done + split_from(
                s@,
                sep,
                e + 1,
            ));
        }
        from = e + 1;
    }
}

/// The lines of `s` from position `from` on, as `str::lines` gives them: split at
/// `'\n'`, a `'\r'` directly before a `'\n'` dropped, and no empty last line
/// after a final line ending.
pub open spec fn lines_from(s: Seq<char>, from: int) -> Seq<Seq<char>>
    decreases s.len() + 1 - from,
{
    if from < 0 || from >= s.len() {
        seq![]
    } else {
        let e = find_from(s, '\n', from);
        proof {
            lemma_find_from(s, '\n', from);
        }
        let piece = s.subrange(from, e);
        let line = if e < s.len() && piece.len() > 0 && piece.last() == '\r' {
            piece.drop_last()
        } else {
            piece
        };
        seq![line] + lines_from(s, e + 1)
    }
}

/// The lines of `s` (`str::lines`).
pub open spec fn lines(s: Seq<char>) -> Seq<Seq<char>> {
    lines_from(s, 0)
}

/// Splits `s` into lines like `str::lines`.
pub fn lines_of(s: &[char]) -> (r: Vec<Vec<char>>)
    ensures
        r@.len() == lines(s@).len(),
        forall|k: int| 0 <= k < r@.len() ==> #[trigger] r@[k]@ == lines(s@)[k],
{
    let mut r: Vec<Vec<char>> = Vec::new();
    let mut from: usize = 0;
    let ghost done: Seq<Seq<char>> = seq![];
    while from < s.len()
        invariant
            from <= s@.len(),
            r@.len() == done.len(),
            forall|k: int| 0 <= k < r@.len() ==> #[trigger] r@[k]@ == done[k],
            lines(s@) == done + lines_from(s@, from as int),
        decreases s@.len() - from,
    {
        let e = find_char(s, '\n', from);
        proof {
            lemma_find_from(s@, '\n', from as int);
        }
        let mut end = e;
        if e < s.len() && e > from && s[e - 1] == '\r' {
            end = e - 1;
        }
        let line = slice_of(s, from, end);
        proof {
            let piece = s@.subrange(from as int, e as int);
            if e < s@.len() && e > from && s@[e - 1] == '\r' {
                assert(piece.drop_last() =~= line@);
            } else {
                assert(piece =~= line@);
            }
            let old_done = done;
            done = done.push(line@);
            assert(lines_from(s@, from as int) == seq![line@] + lines_from(s@, e + 1));
            assert(old_done + (seq![line@] + lines_from(s@, e + 1)) =~= done + lines_from(
                s@,
                e + 1,
            ));
        }
        r.push(line);
        if e >= s.len() {
            from = s.len();
            assert(lines_from(s@, e + 1) == Seq::<Seq<char>>::empty());
            assert(lines_from(s@, from as int) == Seq::<Seq<char>>::empty());
        } else {
            from = e + 1;
        }
    }
    assert(done + lines_from(s@, from as int) =~= done);
    r
}

/// The value of an ASCII digit `c` in base `radix` (`0-9`, then `a-z` or `A-Z`).
pub open spec fn digit_value(c: char, radix: nat) -> Option<nat> {
    let v: int = if '0' <= c && c <= '9' {
        c as int - '0' as int
    } else if 'a' <= c && c <= 'z' {
        c as int - 'a' as int + 10
    } else if 'A' <= c && c <= 'Z' {
        c as int - 'A' as int + 10
    } else {
        radix as int
    };
    if v < radix {
        Some(v as nat)
    } else {
        None
    }
}

/// The value of a run of digits in base `radix`, if every character is a digit.
pub open spec fn digits_value(s: Seq<char>, radix: nat) -> Option<nat>
    decreases s.len(),
{
    if s.len() == 0 {
        Some(0)
    } else {
        match (digits_value(s.drop_last(), radix), digit_value(s.last(), radix)) {
            (Some(a), Some(d)) => Some(a * radix + d),
            _ => None,
        }
    }
}

/// `radix` to the power `n`.
pub open spec fn radix_pow(radix: nat, n: nat) -> nat
    decreases n,
{
    if n == 0 {
        1
    } else {
        radix * radix_pow(radix, (n - 1) as nat)
    }
}

/// A run of `n` digits is worth less than `radix` to the power `n`.
pub proof fn lemma_digits_bound(s: Seq<char>, radix: nat)
    requires
        digits_value(s, radix) is Some,
    ensures
        digits_value(s, radix)->0 < radix_pow(radix, s.len()),
    decreases s.len(),
{
    if s.len() > 0 {
        lemma_digits_bound(s.drop_last(), radix);
        let a = digits_value(s.drop_last(), radix)->0;
        let d = digit_value(s.last(), radix)->0;
        let p = radix_pow(radix, s.drop_last().len());
        assert(a * radix + d < p * radix) by (nonlinear_arith)
            requires
                a < p,
                d < radix,
        ;
        assert(p * radix == radix * p) by (nonlinear_arith);
    }
}

/// A run has a value only when every one of its characters is a digit.
pub proof fn lemma_digits_all(s: Seq<char>, radix: nat, i: int)
    requires
        digits_value(s, radix) is Some,
        0 <= i < s.len(),
    ensures
        digit_value(s[i], radix) is Some,
    decreases s.len(),
{
    if i < s.len() - 1 {
        lemma_digits_all(s.drop_last(), radix, i);
    }
}

/// A run whose characters are all digits has a value.
pub proof fn lemma_digits_some(s: Seq<char>, radix: nat)
    requires
        forall|i: int| 0 <= i < s.len() ==> (#[trigger] digit_value(s[i], radix)) is Some,
    ensures
        digits_value(s, radix) is Some,
    decreases s.len(),
{
    if s.len() > 0 {
        let pre = s.drop_last();
        assert forall|i: int| 0 <= i < pre.len() implies (#[trigger] digit_value(pre[i], radix)) is Some by {
            assert(pre[i] == s[i]);
        }
        lemma_digits_some(pre, radix);
        assert(digit_value(s[s.len() - 1], radix) is Some);
    }
}

/// What `u32::from_str_radix(s, radix)` returns: an optional `+` followed by at
/// least one digit of `radix`, whose value fits in a `u32`.
pub open spec fn parse_unsigned(s: Seq<char>, radix: nat) -> Option<u32> {
    let body = if s.len() > 0 && s[0] == '+' {
        s.drop_first()
    } else {
        s
    };
    if body.len() == 0 {
        None
    } else {
        match digits_value(body, radix) {
            Some(v) => if v <= u32::MAX {
                Some(v as u32)
            } else {
                None
            },
            None => None,
        }
    }
}

fn digit_of(c: char, radix: u32) -> (r: Option<u32>)
    requires
        2 <= radix <= 36,
    ensures
        r matches Some(d) ==> digit_value(c, radix as nat) == Some(d as nat),
        r is None ==> digit_value(c, radix as nat) is None,
{
    let v: u32 = if '0' <= c && c <= '9' {
        (c as u32) - ('0' as u32)
    } else if 'a' <= c && c <= 'z' {
        (c as u32) - ('a' as u32) + 10
    } else if 'A' <= c && c <= 'Z' {
        (c as u32) - ('A' as u32) + 10
    } else {
        radix
    };
    if v < radix {
        Some(v)
    } else {
        None
    }
}

proof fn lemma_digits_value_grows(s: Seq<char>, radix: nat, k: int)
    requires
        radix >= 2,
        0 <= k <= s.len(),
        digits_value(s, radix) is Some,
    ensures
        digits_value(s.subrange(0, k), radix) is Some,
        digits_value(s.subrange(0, k), radix)->0 <= digits_value(s, radix)->0,
    decreases s.len() - k,
{
    if k == s.len() {
        assert(s.subrange(0, k) =~= s);
    } else {
        lemma_digits_value_grows(s, radix, k + 1);
        let t = s.subrange(0, k + 1);
        assert(t.drop_last() =~= s.subrange(0, k));
        let a = digits_value(s.subrange(0, k), radix)->0;
        let d = digit_value(t.last(), radix)->0;
        assert(a * radix + d >= a) by (nonlinear_arith)
            requires
                radix >= 2,
        ;
    }
}

proof fn lemma_prefix_blocks(s: Seq<char>, radix: nat, start: int, k: int)
    requires
        radix >= 2,
        start == (if s.len() > 0 && s[0] == '+' { 1int } else { 0int }),
        start < s.len(),
        0 < k <= s.len() - start,
        digits_value(s.subrange(start, start + k), radix) is None || digits_value(
            s.subrange(start, start + k),
            radix,
        )->0 > u32::MAX,
    ensures
        parse_unsigned(s, radix) is None,
{
    let body = if s.len() > 0 && s[0] == '+' {
        s.drop_first()
    } else {
        s
    };
    assert(body =~= s.subrange(start, s.len() as int));
    if digits_value(body, radix) is Some {
        lemma_digits_value_grows(body, radix, k);
        assert(body.subrange(0, k) =~= s.subrange(start, start + k));
    }
}

/// Parses an unsigned number the way `u32::from_str_radix` does.
pub fn parse_u32_radix(s: &[char], radix: u32) -> (r: Option<u32>)
    requires
        2 <= radix <= 36,
    ensures
        r == parse_unsigned(s@, radix as nat),
{
    let start: usize = if s.len() > 0 && s[0] == '+' {
        1
    } else {
        0
    };
    let ghost body = if s@.len() > 0 && s@[0] == '+' {
        s@.drop_first()
    } else {
        s@
    };
    assert(body =~= s@.subrange(start as int, s@.len() as int));
    if start >= s.len() {
        return None;
    }
    let mut acc: u64 = 0;
    let mut i = start;
    while i < s.len()
        invariant
            start <= i <= s@.len(),
            start < s@.len(),
            start == (if s@.len() > 0 && s@[0] == '+' { 1int } else { 0int }),
            2 <= radix <= 36,
            body == s@.subrange(start as int, s@.len() as int),
            digits_value(s@.subrange(start as int, i as int), radix as nat) == Some(acc as nat),
            acc <= u32::MAX,
        decreases s@.len() - i,
    {
        let d = digit_of(s[i], radix);
        let ghost pre = s@.subrange(start as int, i as int);
        let ghost cur = s@.subrange(start as int, i + 1);
        assert(cur.drop_last() =~= pre);
        assert(cur.last() == s@[i as int]);
        match d {
            None => {
                proof {
                    assert(digits_value(cur, radix as nat) is None);
                    lemma_prefix_blocks(s@, radix as nat, start as int, i + 1 - start);
                }
                return None;
            },
            Some(dv) => {
                assert(acc * (radix as u64) <= 36 * 0xffff_ffffu64) by (nonlinear_arith)
                    requires
                        acc <= 0xffff_ffffu64,
                        radix <= 36,
                ;
                let next = acc * (radix as u64) + (dv as u64);
                assert(digits_value(cur, radix as nat) == Some(next as nat));
                if next > 0xffff_ffffu64 {
                    proof {
                        lemma_prefix_blocks(s@, radix as nat, start as int, i + 1 - start);
                    }
                    return None;
                }
                acc = next;
            },
        }
        i = i + 1;
    }
    assert(s@.subrange(start as int, s@.len() as int) =~= body);
    Some(acc as u32)
}

/// Appends the characters `cs` to `s`.
pub fn push_chars(s: &mut String, cs: &[char])
    ensures
        final(s)@ == old(s)@ + cs@,
{
    let mut i: usize = 0;
    while i < cs.len()
        invariant
            i <= cs@.len(),
            s@ == old(s)@ + cs@.subrange(0, i as int),
        decreases cs@.len() - i,
    {
        push_char(s, cs[i]);
        i = i + 1;
        assert(old(s)@ + cs@.subrange(0, i as int) =~= (old(s)@ + cs@.subrange(0, i - 1)).push(
            cs@[i - 1],
        ));
    }
    assert(cs@.subrange(0, cs@.len() as int) =~= cs@);
}

/// The string `a`, then the characters `b`, then the string `c`.
pub fn concat3(a: &str, b: &[char], c: &str) -> (r: String)
    ensures
        r@ == a@ + b@ + c@,
{
    let mut r = String::from_str(a);
    push_chars(&mut r, b);
    r.append(c);
    r
}

} // verus!
