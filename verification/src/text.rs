//! Character-level text primitives shared by the parsers.
//!
//! Text is handled as sequences of `char`. Each operation here has a spec
//! function that says what it computes (with the same meaning as the `str`
//! method of the same name: `trim`, `lines`, `split_whitespace`, `split`,
//! `find`, `starts_with`), and an executable function proved against it.
use vstd::prelude::*;

verus! {

// ---------------------------------------------------------------------------
// Specifications
// ---------------------------------------------------------------------------

/// Unicode `White_Space` (what `char::is_whitespace` tests).
pub open spec fn is_ws(c: char) -> bool {
    ||| c == '\t'
    ||| c == '\n'
    ||| c == '\x0B'
    ||| c == '\x0C'
    ||| c == '\r'
    ||| c == ' '
    ||| c == '\u{85}'
    ||| c == '\u{A0}'
    ||| c == '\u{1680}'
    ||| ('\u{2000}' as int <= c as int && c as int <= '\u{200A}' as int)
    ||| c == '\u{2028}'
    ||| c == '\u{2029}'
    ||| c == '\u{202F}'
    ||| c == '\u{205F}'
    ||| c == '\u{3000}'
}

/// First index at or after `i` that is not whitespace (or `t.len()`).
pub open spec fn skip_ws(t: Seq<char>, i: int) -> int
    decreases t.len() - i,
{
    if 0 <= i < t.len() && is_ws(t[i]) {
        skip_ws(t, i + 1)
    } else {
        i
    }
}

/// Going back from `j`, the index just after the last non-whitespace char.
pub open spec fn trail_ws(t: Seq<char>, j: int) -> int
    decreases j,
{
    if 0 < j <= t.len() && is_ws(t[j - 1]) {
        trail_ws(t, j - 1)
    } else {
        j
    }
}

/// `t` without leading and trailing whitespace (`str::trim`).
pub open spec fn trim(t: Seq<char>) -> Seq<char> {
    let a = skip_ws(t, 0);
    if a >= t.len() {
        Seq::empty()
    } else {
        t.subrange(a, trail_ws(t, t.len() as int))
    }
}

/// First index at or after `i` holding `c`, or `t.len()` when there is none.
pub open spec fn find_char(t: Seq<char>, c: char, i: int) -> int
    decreases t.len() - i,
{
    if i < 0 || i >= t.len() {
        t.len() as int
    } else if t[i] == c {
        i
    } else {
        find_char(t, c, i + 1)
    }
}

/// First index at or after `i` where `p` occurs, or `t.len()` when it does not.
pub open spec fn find_pat(t: Seq<char>, p: Seq<char>, i: int) -> int
    decreases t.len() - i,
{
    if i < 0 || i >= t.len() || i + p.len() > t.len() {
        t.len() as int
    } else if t.subrange(i, i + p.len()) == p {
        i
    } else {
        find_pat(t, p, i + 1)
    }
}

/// `p` occurs somewhere in `t` (`str::contains`).
pub open spec fn contains_pat(t: Seq<char>, p: Seq<char>) -> bool {
    find_pat(t, p, 0) < t.len()
}

/// `t` begins with `p` (`str::starts_with`).
pub open spec fn starts_with(t: Seq<char>, p: Seq<char>) -> bool {
    p.len() <= t.len() && t.subrange(0, p.len() as int) == p
}

/// `t` with the prefix `p` removed (meaningful when `starts_with(t, p)`).
pub open spec fn after(t: Seq<char>, p: Seq<char>) -> Seq<char> {
    t.subrange(p.len() as int, t.len() as int)
}

/// End of the run of non-whitespace chars that starts at `i`.
pub open spec fn word_end(t: Seq<char>, i: int) -> int
    decreases t.len() - i,
{
    if 0 <= i < t.len() && !is_ws(t[i]) {
        word_end(t, i + 1)
    } else {
        i
    }
}

/// The whitespace-separated words of `t` from index `i` on (`str::split_whitespace`).
pub open spec fn words_from(t: Seq<char>, i: int) -> Seq<Seq<char>>
    decreases t.len() - i,
{
    if i < 0 || i >= t.len() {
        Seq::empty()
    } else if is_ws(t[i]) {
        words_from(t, i + 1)
    } else {
        let j = word_end(t, i);
        if j <= i || j > t.len() {
            Seq::empty()
        } else {
            seq![t.subrange(i, j)] + words_from(t, j)
        }
    }
}

/// The whitespace-separated words of `t`.
pub open spec fn words(t: Seq<char>) -> Seq<Seq<char>> {
    words_from(t, 0)
}

/// The pieces of `t[i..]` between occurrences of `c` (`str::split` on a char).
pub open spec fn split_from(t: Seq<char>, c: char, i: int) -> Seq<Seq<char>>
    decreases t.len() + 1 - i,
{
    if i < 0 || i > t.len() {
        Seq::empty()
    } else {
        let k = find_char(t, c, i);
        if k >= t.len() {
            seq![t.subrange(i, t.len() as int)]
        } else if k < i {
            Seq::empty()
        } else {
            seq![t.subrange(i, k)] + split_from(t, c, k + 1)
        }
    }
}

/// The pieces of `t` between occurrences of `c`.
pub open spec fn split(t: Seq<char>, c: char) -> Seq<Seq<char>> {
    split_from(t, c, 0)
}

/// The pieces of `t[i..]` between occurrences of `p` (`str::split` on a string).
pub open spec fn split_pat_from(t: Seq<char>, p: Seq<char>, i: int) -> Seq<Seq<char>>
    decreases t.len() + 1 - i,
{
    if i < 0 || i > t.len() {
        Seq::empty()
    } else {
        let k = find_pat(t, p, i);
        if k >= t.len() || p.len() == 0 {
            seq![t.subrange(i, t.len() as int)]
        } else if k < i || k + p.len() > t.len() {
            Seq::empty()
        } else {
            seq![t.subrange(i, k)] + split_pat_from(t, p, k + p.len())
        }
    }
}

/// The pieces of `t` between occurrences of `p`.
pub open spec fn split_pat(t: Seq<char>, p: Seq<char>) -> Seq<Seq<char>> {
    split_pat_from(t, p, 0)
}

/// The text before the first `c` (`split(c).next()`).
pub open spec fn before_char(t: Seq<char>, c: char) -> Seq<char> {
    t.subrange(0, find_char(t, c, 0))
}

/// Drops one trailing carriage return.
pub open spec fn strip_cr(t: Seq<char>) -> Seq<char> {
    if t.len() > 0 && t.last() == '\r' {
        t.drop_last()
    } else {
        t
    }
}

/// The lines of `t[i..]` (`str::lines`: split at `\n`, one `\r` before a `\n`
/// dropped, no empty line after a final `\n`).
pub open spec fn lines_from(t: Seq<char>, i: int) -> Seq<Seq<char>>
    decreases t.len() - i,
{
    if i < 0 || i >= t.len() {
        Seq::empty()
    } else {
        let k = find_char(t, '\n', i);
        if k >= t.len() {
            seq![t.subrange(i, t.len() as int)]
        } else if k < i {
            Seq::empty()
        } else {
            seq![strip_cr(t.subrange(i, k))] + lines_from(t, k + 1)
        }
    }
}

/// The lines of `t`.
pub open spec fn lines(t: Seq<char>) -> Seq<Seq<char>> {
    lines_from(t, 0)
}

/// The char sequences held by a list of char vectors.
pub open spec fn views(v: Seq<Vec<char>>) -> Seq<Seq<char>> {
    v.map_values(|w: Vec<char>| w@)
}

/// `c` is an ASCII decimal digit.
pub open spec fn is_digit(c: char) -> bool {
    '0' <= c && c <= '9'
}

/// Value of an ASCII decimal digit.
pub open spec fn digit_val(c: char) -> nat {
    (c as int - '0' as int) as nat
}

/// `t` is made of ASCII decimal digits only.
pub open spec fn all_digits(t: Seq<char>) -> bool {
    forall|k: int| 0 <= k < t.len() ==> is_digit(#[trigger] t[k])
}

/// Decimal value of a digit string (most significant first).
pub open spec fn dec_value(t: Seq<char>) -> nat
    decreases t.len(),
{
    if t.len() == 0 {
        0
    } else {
        dec_value(t.drop_last()) * 10 + digit_val(t.last())
    }
}

/// Lexicographic order by code point (the order of `String`'s `Ord`, since
/// UTF-8 keeps code point order byte by byte).
pub open spec fn text_lt(a: Seq<char>, b: Seq<char>) -> bool
    decreases a.len(),
{
    if a.len() == 0 {
        b.len() > 0
    } else if b.len() == 0 {
        false
    } else if a[0] != b[0] {
        (a[0] as int) < (b[0] as int)
    } else {
        text_lt(a.drop_first(), b.drop_first())
    }
}

/// The ASCII digit for `d < 10`.
pub open spec fn digit_char(d: nat) -> char {
    if d == 0 {
        '0'
    } else if d == 1 {
        '1'
    } else if d == 2 {
        '2'
    } else if d == 3 {
        '3'
    } else if d == 4 {
        '4'
    } else if d == 5 {
        '5'
    } else if d == 6 {
        '6'
    } else if d == 7 {
        '7'
    } else if d == 8 {
        '8'
    } else {
        '9'
    }
}

/// Decimal text of `n` (what `{}` prints for an unsigned integer).
pub open spec fn dec_text(n: nat) -> Seq<char>
    decreases n,
{
    if n < 10 {
        seq![digit_char(n)]
    } else {
        dec_text(n / 10).push(digit_char(n % 10))
    }
}

/// A text result, as text.
pub open spec fn text_result(r: Result<String, String>) -> Result<Seq<char>, Seq<char>> {
    match r {
        Ok(v) => Ok(v@),
        Err(e) => Err(e@),
    }
}

// ---------------------------------------------------------------------------
// Lemmas
// ---------------------------------------------------------------------------

pub proof fn lemma_text_lt_asymmetric(a: Seq<char>, b: Seq<char>)
    ensures
        !(text_lt(a, b) && text_lt(b, a)),
    decreases a.len(),
{
    if a.len() > 0 && b.len() > 0 && a[0] == b[0] {
        lemma_text_lt_asymmetric(a.drop_first(), b.drop_first());
    }
}

pub proof fn lemma_text_lt_total(a: Seq<char>, b: Seq<char>)
    requires
        a != b,
    ensures
        text_lt(a, b) || text_lt(b, a),
    decreases a.len(),
{
    if a.len() == 0 {
        assert(b.len() > 0) by {
            if b.len() == 0 {
                assert(a =~= b);
            }
        }
    } else if b.len() == 0 {
    } else if a[0] != b[0] {
        assert((a[0] as int) != (b[0] as int));
    } else {
        assert(a.drop_first() != b.drop_first()) by {
            if a.drop_first() == b.drop_first() {
                assert(a =~= seq![a[0]] + a.drop_first());
                assert(b =~= seq![b[0]] + b.drop_first());
            }
        }
        lemma_text_lt_total(a.drop_first(), b.drop_first());
    }
}

pub proof fn lemma_text_lt_transitive(a: Seq<char>, b: Seq<char>, c: Seq<char>)
    requires
        text_lt(a, b),
        text_lt(b, c),
    ensures
        text_lt(a, c),
    decreases a.len(),
{
    if a.len() > 0 && b.len() > 0 && c.len() > 0 && a[0] == b[0] && b[0] == c[0] {
        lemma_text_lt_transitive(a.drop_first(), b.drop_first(), c.drop_first());
    }
}

pub proof fn lemma_trail_ws(t: Seq<char>, j: int, a: int)
    requires
        0 <= a < j <= t.len(),
        !is_ws(t[a]),
    ensures
        a < trail_ws(t, j) <= j,
        !is_ws(t[trail_ws(t, j) - 1]),
    decreases j,
{
    if is_ws(t[j - 1]) {
        lemma_trail_ws(t, j - 1, a);
    }
}

pub proof fn lemma_find_char(t: Seq<char>, c: char, i: int)
    requires
        0 <= i <= t.len(),
    ensures
        i <= find_char(t, c, i) <= t.len(),
        find_char(t, c, i) < t.len() ==> t[find_char(t, c, i)] == c,
        forall|k: int| i <= k < find_char(t, c, i) ==> #[trigger] t[k] != c,
    decreases t.len() - i,
{
    if i < t.len() && t[i] != c {
        lemma_find_char(t, c, i + 1);
    }
}

pub proof fn lemma_find_pat(t: Seq<char>, p: Seq<char>, i: int)
    requires
        0 <= i <= t.len(),
    ensures
        i <= find_pat(t, p, i) <= t.len(),
        find_pat(t, p, i) < t.len() ==> find_pat(t, p, i) + p.len() <= t.len()
            && t.subrange(find_pat(t, p, i), find_pat(t, p, i) + p.len()) == p,
    decreases t.len() - i,
{
    if i + p.len() <= t.len() && t.subrange(i, i + p.len()) != p {
        assert(p.len() > 0) by {
            if p.len() == 0 {
                assert(t.subrange(i, i) =~= p);
            }
        }
        lemma_find_pat(t, p, i + 1);
    }
}

pub proof fn lemma_word_end(t: Seq<char>, i: int)
    requires
        0 <= i <= t.len(),
    ensures
        i <= word_end(t, i) <= t.len(),
        word_end(t, i) < t.len() ==> is_ws(t[word_end(t, i)]),
        forall|k: int| i <= k < word_end(t, i) ==> !is_ws(#[trigger] t[k]),
    decreases t.len() - i,
{
    if i < t.len() && !is_ws(t[i]) {
        lemma_word_end(t, i + 1);
    }
}

pub proof fn lemma_find_char_shift(p: Seq<char>, r: Seq<char>, c: char, i: int)
    requires
        0 <= i <= r.len(),
    ensures
        find_char(p + r, c, p.len() + i) == p.len() + find_char(r, c, i),
    decreases r.len() - i,
{
    if i < r.len() {
        assert((p + r)[p.len() + i] == r[i]);
        if r[i] != c {
            lemma_find_char_shift(p, r, c, i + 1);
        }
    }
}

pub proof fn lemma_find_char_prefix(a: Seq<char>, b: Seq<char>, c: char, i: int)
    requires
        0 <= i <= a.len(),
        find_char(a, c, i) < a.len(),
    ensures
        find_char(a + b, c, i) == find_char(a, c, i),
    decreases a.len() - i,
{
    assert((a + b)[i] == a[i]);
    if a[i] != c {
        lemma_find_char_prefix(a, b, c, i + 1);
    }
}

/// `find_char` skips a stretch without `c`.
pub proof fn lemma_find_char_skip(t: Seq<char>, c: char, i: int, j: int)
    requires
        0 <= i <= j <= t.len(),
        forall|k: int| i <= k < j ==> t[k] != c,
    ensures
        find_char(t, c, i) == find_char(t, c, j),
    decreases j - i,
{
    if i < j {
        lemma_find_char_skip(t, c, i + 1, j);
    }
}

pub proof fn lemma_lines_shift(p: Seq<char>, r: Seq<char>, i: int)
    requires
        0 <= i <= r.len(),
    ensures
        lines_from(p + r, p.len() + i) == lines_from(r, i),
    decreases r.len() - i,
{
    if i < r.len() {
        lemma_find_char_shift(p, r, '\n', i);
        lemma_find_char(r, '\n', i);
        let k = find_char(r, '\n', i);
        if k < r.len() {
            assert((p + r).subrange(p.len() + i, p.len() + k) =~= r.subrange(i, k));
            lemma_lines_shift(p, r, k + 1);
        } else {
            assert((p + r).subrange(p.len() + i, (p + r).len() as int) =~= r.subrange(i, r.len() as int));
        }
    }
}

/// Splitting into lines distributes over a first part that ends a line.
pub proof fn lemma_lines_append(a: Seq<char>, b: Seq<char>, i: int)
    requires
        0 <= i <= a.len(),
        a.len() == 0 || a.last() == '\n',
    ensures
        lines_from(a + b, i) == lines_from(a, i) + lines_from(b, 0),
    decreases a.len() - i,
{
    if i == a.len() {
        lemma_lines_shift(a, b, 0);
        assert(lines_from(a, i) =~= Seq::<Seq<char>>::empty());
        assert(lines_from(a + b, i) =~= lines_from(a, i) + lines_from(b, 0));
    } else {
        lemma_find_char(a, '\n', i);
        let k = find_char(a, '\n', i);
        assert(k < a.len()) by {
            if k == a.len() {
                assert(a[a.len() - 1] != '\n');
            }
        }
        lemma_find_char_prefix(a, b, '\n', i);
        assert((a + b).subrange(i, k) =~= a.subrange(i, k));
        lemma_lines_append(a, b, k + 1);
        assert(lines_from(a + b, i) =~= lines_from(a, i) + lines_from(b, 0));
    }
}

/// A line without `\n` that does not end in `\r`, followed by `\n`, is one line.
pub proof fn lemma_one_line(x: Seq<char>)
    requires
        forall|k: int| 0 <= k < x.len() ==> x[k] != '\n',
        x.len() > 0,
        x.last() != '\r',
    ensures
        lines(x.push('\n')) == seq![x],
{
    let t = x.push('\n');
    assert forall|k: int| 0 <= k < x.len() implies t[k] != '\n' by {
        assert(t[k] == x[k]);
    }
    lemma_find_char_skip(t, '\n', 0, x.len() as int);
    assert(find_char(t, '\n', 0) == x.len());
    assert(t.subrange(0, x.len() as int) =~= x);
    assert(lines_from(t, x.len() + 1int) =~= Seq::<Seq<char>>::empty());
    assert(lines(t) =~= seq![x]);
}

/// A text that starts and ends with non-whitespace is its own trim.
pub proof fn lemma_trim_exact(x: Seq<char>)
    requires
        x.len() > 0,
        !is_ws(x[0]),
        !is_ws(x.last()),
    ensures
        trim(x) == x,
{
    assert(skip_ws(x, 0) == 0);
    assert(trail_ws(x, x.len() as int) == x.len());
    assert(x.subrange(0, x.len() as int) =~= x);
}

/// The word starting at `i` ends at `j` when `[i, j)` has no whitespace and
/// `j` is the end or whitespace.
pub proof fn lemma_word_end_at(t: Seq<char>, i: int, j: int)
    requires
        0 <= i <= j <= t.len(),
        forall|k: int| i <= k < j ==> !is_ws(#[trigger] t[k]),
        j == t.len() || is_ws(t[j]),
    ensures
        word_end(t, i) == j,
    decreases j - i,
{
    if i < j {
        lemma_word_end_at(t, i + 1, j);
    }
}

/// `w` is a word: non-empty, with no whitespace in it.
pub open spec fn is_word(w: Seq<char>) -> bool {
    &&& w.len() > 0
    &&& forall|m: int| 0 <= m < w.len() ==> !is_ws(#[trigger] w[m])
}

/// Every word that `words_from` gives is a word.
pub proof fn lemma_words_are_words(t: Seq<char>, i: int)
    ensures
        forall|k: int| 0 <= k < words_from(t, i).len() ==> is_word(#[trigger] words_from(t, i)[k]),
    decreases t.len() - i,
{
    if 0 <= i < t.len() {
        if is_ws(t[i]) {
            lemma_words_are_words(t, i + 1);
            assert(words_from(t, i) == words_from(t, i + 1));
        } else {
            let j = word_end(t, i);
            lemma_word_end(t, i);
            lemma_word_end(t, i + 1);
            assert(j > i);
            lemma_words_are_words(t, j);
            let w = t.subrange(i, j);
            let rest = words_from(t, j);
            assert(words_from(t, i) == seq![w] + rest);
            assert forall|m: int| 0 <= m < w.len() implies !is_ws(#[trigger] w[m]) by {
                assert(w[m] == t[i + m]);
            }
            assert forall|k: int| 0 <= k < words_from(t, i).len() implies is_word(
                #[trigger] words_from(t, i)[k],
            ) by {
                if k == 0 {
                    assert(words_from(t, i)[k] == w);
                } else {
                    assert(words_from(t, i)[k] == rest[k - 1]);
                }
            }
        }
    } else {
        assert(words_from(t, i).len() == 0);
    }
}

/// The first word of a text that starts with a word `w` followed by
/// whitespace or the end.
pub proof fn lemma_first_word(w: Seq<char>, rest: Seq<char>)
    requires
        w.len() > 0,
        forall|k: int| 0 <= k < w.len() ==> !is_ws(#[trigger] w[k]),
        rest.len() == 0 || is_ws(rest[0]),
    ensures
        words(w + rest).len() > 0,
        words(w + rest)[0] == w,
{
    let t = w + rest;
    assert forall|k: int| 0 <= k < w.len() implies !is_ws(#[trigger] t[k]) by {
        assert(t[k] == w[k]);
    }
    if rest.len() > 0 {
        assert(t[w.len() as int] == rest[0]);
    }
    lemma_word_end_at(t, 0, w.len() as int);
    assert(t.subrange(0, w.len() as int) =~= w);
}

pub proof fn lemma_dec_value_push(t: Seq<char>, c: char)
    ensures
        dec_value(t.push(c)) == dec_value(t) * 10 + digit_val(c),
{
    assert(t.push(c).drop_last() =~= t);
}

// ---------------------------------------------------------------------------
// Executable operations
// ---------------------------------------------------------------------------

/// The characters of `s`, one by one.
pub fn chars_of(s: &str) -> (v: Vec<char>)
    ensures
        v@ == s@,
{
    let mut v: Vec<char> = Vec::new();
    for c in it: s.chars()
        invariant
            v@ == it.seq().take(it.index() as int),
            it.seq() == s@,
    {
        v.push(c);
    }
    v
}

/// Appends one char to a `String` (`String::push`).
#[verifier::external_body]
pub(crate) fn push_char(s: &mut String, c: char)
    ensures
        final(s)@ == old(s)@.push(c),
{
    s.push(c);
}

/// A `String` holding the chars of `v`.
pub fn string_of(v: &Vec<char>) -> (s: String)
    ensures
        s@ == v@,
{
    let mut s = String::new();
    let mut i: usize = 0;
    while i < v.len()
        invariant
            i <= v.len(),
            s@ == v@.take(i as int),
        decreases v.len() - i,
    {
        push_char(&mut s, v[i]);
        i = i + 1;
        assert(s@ =~= v@.take(i as int));
    }
    assert(v@.take(v.len() as int) =~= v@);
    s
}

/// The chars of a `String`.
pub fn chars_of_string(s: &String) -> (v: Vec<char>)
    ensures
        v@ == s@,
{
    chars_of(s.as_str())
}

/// `t[a..b]` as a new vector.
pub fn slice(t: &Vec<char>, a: usize, b: usize) -> (r: Vec<char>)
    requires
        a <= b <= t.len(),
    ensures
        r@ == t@.subrange(a as int, b as int),
{
    let mut r: Vec<char> = Vec::new();
    let mut i = a;
    while i < b
        invariant
            a <= i <= b <= t.len(),
            r@ == t@.subrange(a as int, i as int),
        decreases b - i,
    {
        r.push(t[i]);
        i = i + 1;
        assert(r@ =~= t@.subrange(a as int, i as int));
    }
    r
}

/// Whether two char sequences are equal.
pub fn eq_chars(a: &Vec<char>, b: &Vec<char>) -> (r: bool)
    ensures
        r == (a@ == b@),
{
    if a.len() != b.len() {
        return false;
    }
    let mut i: usize = 0;
    while i < a.len()
        invariant
            a.len() == b.len(),
            i <= a.len(),
            forall|k: int| 0 <= k < i ==> a@[k] == b@[k],
        decreases a.len() - i,
    {
        if a[i] != b[i] {
            return false;
        }
        i = i + 1;
    }
    assert(a@ =~= b@);
    true
}

/// `a < b` for `String`s.
pub fn text_less(a: &Vec<char>, b: &Vec<char>) -> (r: bool)
    ensures
        r == text_lt(a@, b@),
{
    let mut k: usize = 0;
    assert(a@.subrange(0, a@.len() as int) =~= a@);
    assert(b@.subrange(0, b@.len() as int) =~= b@);
    loop
        invariant
            k <= a.len(),
            k <= b.len(),
            text_lt(a@, b@) == text_lt(
                a@.subrange(k as int, a@.len() as int),
                b@.subrange(k as int, b@.len() as int),
            ),
        decreases a.len() - k,
    {
        let ghost sa = a@.subrange(k as int, a@.len() as int);
        let ghost sb = b@.subrange(k as int, b@.len() as int);
        if k == a.len() {
            return k < b.len();
        }
        if k == b.len() {
            return false;
        }
        assert(sa[0] == a@[k as int] && sb[0] == b@[k as int]);
        if a[k] != b[k] {
            return a[k] < b[k];
        }
        assert(sa.drop_first() =~= a@.subrange(k + 1, a@.len() as int));
        assert(sb.drop_first() =~= b@.subrange(k + 1, b@.len() as int));
        k = k + 1;
    }
}

fn digit(d: u64) -> (c: char)
    requires
        d < 10,
    ensures
        c == digit_char(d as nat),
{
    match d {
        0 => '0',
        1 => '1',
        2 => '2',
        3 => '3',
        4 => '4',
        5 => '5',
        6 => '6',
        7 => '7',
        8 => '8',
        _ => '9',
    }
}

/// Decimal digits of `n`.
pub fn dec_chars(n: u64) -> (r: Vec<char>)
    ensures
        r@ == dec_text(n as nat),
    decreases n,
{
    if n < 10 {
        let mut v: Vec<char> = Vec::new();
        v.push(digit(n));
        assert(v@ =~= seq![digit_char(n as nat)]);
        v
    } else {
        let mut v = dec_chars(n / 10);
        v.push(digit(n % 10));
        v
    }
}

/// `n.to_string()`.
pub fn dec_string(n: u64) -> (r: String)
    ensures
        r@ == dec_text(n as nat),
{
    string_of(&dec_chars(n))
}

/// `char::is_whitespace`.
pub fn is_ws_char(c: char) -> (r: bool)
    ensures
        r == is_ws(c),
{
    let n = c as u32;
    (c == '\t' || c == '\n' || c == '\x0B' || c == '\x0C' || c == '\r' || c == ' '
        || c == '\u{85}' || c == '\u{A0}' || c == '\u{1680}' || (0x2000 <= n && n <= 0x200A)
        || c == '\u{2028}' || c == '\u{2029}' || c == '\u{202F}' || c == '\u{205F}'
        || c == '\u{3000}')
}

/// `str::trim`.
pub fn trim_chars(t: &Vec<char>) -> (r: Vec<char>)
    ensures
        r@ == trim(t@),
{
    let mut a: usize = 0;
    while a < t.len() && is_ws_char(t[a])
        invariant
            a <= t.len(),
            skip_ws(t@, a as int) == skip_ws(t@, 0),
        decreases t.len() - a,
    {
        a = a + 1;
    }
    if a == t.len() {
        return Vec::new();
    }
    let mut b: usize = t.len();
    proof {
        lemma_trail_ws(t@, t.len() as int, a as int);
    }
    while b > a + 1 && is_ws_char(t[b - 1])
        invariant
            a < b <= t.len(),
            !is_ws(t@[a as int]),
            trail_ws(t@, b as int) == trail_ws(t@, t.len() as int),
        decreases b,
    {
        b = b - 1;
    }
    slice(t, a, b)
}

/// `find` of a char from index `i`: the index, or `t.len()` when absent.
pub fn find_char_from(t: &Vec<char>, c: char, i: usize) -> (r: usize)
    requires
        i <= t.len(),
    ensures
        r == find_char(t@, c, i as int),
{
    let mut k = i;
    while k < t.len() && t[k] != c
        invariant
            i <= k <= t.len(),
            find_char(t@, c, k as int) == find_char(t@, c, i as int),
        decreases t.len() - k,
    {
        k = k + 1;
    }
    k
}

/// Whether `p` occurs in `t` at index `i`.
pub fn matches_at(t: &Vec<char>, p: &Vec<char>, i: usize) -> (r: bool)
    requires
        i <= t.len(),
    ensures
        r == (i + p.len() <= t.len() && t@.subrange(i as int, i + p.len()) == p@),
{
    if p.len() > t.len() - i {
        return false;
    }
    let mut k: usize = 0;
    while k < p.len()
        invariant
            i + p.len() <= t.len(),
            k <= p.len(),
            forall|m: int| 0 <= m < k ==> t@[i + m] == p@[m],
        decreases p.len() - k,
    {
        if t[i + k] != p[k] {
            assert(t@.subrange(i as int, i + p.len())[k as int] != p@[k as int]);
            return false;
        }
        k = k + 1;
    }
    assert(t@.subrange(i as int, i + p.len()) =~= p@);
    true
}

/// `find` of a pattern from index `i`: the index, or `t.len()` when absent.
pub fn find_pat_from(t: &Vec<char>, p: &Vec<char>, i: usize) -> (r: usize)
    requires
        i <= t.len(),
    ensures
        r == find_pat(t@, p@, i as int),
{
    let mut k = i;
    while k < t.len()
        invariant
            i <= k <= t.len(),
            find_pat(t@, p@, k as int) == find_pat(t@, p@, i as int),
        decreases t.len() - k,
    {
        if matches_at(t, p, k) {
            return k;
        }
        if p.len() > t.len() - k {
            return t.len();
        }
        k = k + 1;
    }
    proof {
        if p@.len() == 0 {
            assert(t@.subrange(k as int, k as int) =~= p@);
        }
    }
    k
}

/// `str::starts_with`.
pub fn starts_with_chars(t: &Vec<char>, p: &Vec<char>) -> (r: bool)
    ensures
        r == starts_with(t@, p@),
{
    matches_at(t, p, 0)
}

/// `str::strip_prefix`.
pub fn strip_prefix_chars(t: &Vec<char>, p: &Vec<char>) -> (r: Option<Vec<char>>)
    ensures
        r is Some <==> starts_with(t@, p@),
        r matches Some(v) ==> v@ == after(t@, p@),
{
    if starts_with_chars(t, p) {
        Some(slice(t, p.len(), t.len()))
    } else {
        None
    }
}

/// `str::split_whitespace`, collected.
pub fn split_words(t: &Vec<char>) -> (r: Vec<Vec<char>>)
    ensures
        views(r@) == words(t@),
{
    let mut r: Vec<Vec<char>> = Vec::new();
    let mut i: usize = 0;
    while i < t.len()
        invariant
            i <= t.len(),
            words(t@) == views(r@) + words_from(t@, i as int),
        decreases t.len() - i,
    {
        if is_ws_char(t[i]) {
            i = i + 1;
        } else {
            let mut j = i;
            while j < t.len() && !is_ws_char(t[j])
                invariant
                    i <= j <= t.len(),
                    word_end(t@, j as int) == word_end(t@, i as int),
                decreases t.len() - j,
            {
                j = j + 1;
            }
            proof {
                lemma_word_end(t@, i as int);
            }
            let ghost before = views(r@);
            r.push(slice(t, i, j));
            assert(views(r@) =~= before.push(t@.subrange(i as int, j as int)));
            assert(words_from(t@, i as int) == seq![t@.subrange(i as int, j as int)]
                + words_from(t@, j as int));
            assert(before + words_from(t@, i as int) =~= views(r@) + words_from(
                t@,
                j as int,
            ));
            i = j;
        }
    }
    assert(views(r@) + words_from(t@, i as int) =~= views(r@));
    r
}

/// `str::split` on a char, collected.
pub fn split_chars(t: &Vec<char>, c: char) -> (r: Vec<Vec<char>>)
    ensures
        views(r@) == split(t@, c),
{
    let mut r: Vec<Vec<char>> = Vec::new();
    let mut i: usize = 0;
    loop
        invariant
            i <= t.len(),
            split(t@, c) == views(r@) + split_from(t@, c, i as int),
        decreases t.len() + 1 - i,
    {
        let k = find_char_from(t, c, i);
        proof {
            lemma_find_char(t@, c, i as int);
        }
        let ghost before = views(r@);
        r.push(slice(t, i, k));
        assert(views(r@) =~= before.push(t@.subrange(i as int, k as int)));
        if k == t.len() {
            assert(split(t@, c) =~= views(r@));
            return r;
        }
        assert(before + split_from(t@, c, i as int) =~= views(r@) + split_from(
            t@,
            c,
            k + 1,
        ));
        i = k + 1;
    }
}

/// `str::split` on a non-empty pattern, collected.
pub fn split_pat_chars(t: &Vec<char>, p: &Vec<char>) -> (r: Vec<Vec<char>>)
    requires
        p.len() > 0,
    ensures
        views(r@) == split_pat(t@, p@),
{
    let mut r: Vec<Vec<char>> = Vec::new();
    let mut i: usize = 0;
    loop
        invariant
            i <= t.len(),
            p.len() > 0,
            split_pat(t@, p@) == views(r@) + split_pat_from(t@, p@, i as int),
        decreases t.len() + 1 - i,
    {
        let k = find_pat_from(t, p, i);
        proof {
            lemma_find_pat(t@, p@, i as int);
        }
        let ghost before = views(r@);
        r.push(slice(t, i, k));
        assert(views(r@) =~= before.push(t@.subrange(i as int, k as int)));
        if k == t.len() {
            assert(split_pat(t@, p@) =~= views(r@));
            return r;
        }
        assert(before + split_pat_from(t@, p@, i as int) =~= views(r@) + split_pat_from(
            t@,
            p@,
            k + p@.len(),
        ));
        i = k + p.len();
    }
}

/// `str::lines`, collected.
pub fn split_lines(t: &Vec<char>) -> (r: Vec<Vec<char>>)
    ensures
        views(r@) == lines(t@),
{
    let mut r: Vec<Vec<char>> = Vec::new();
    let mut i: usize = 0;
    while i < t.len()
        invariant
            i <= t.len(),
            lines(t@) == views(r@) + lines_from(t@, i as int),
        decreases t.len() - i,
    {
        let k = find_char_from(t, '\n', i);
        proof {
            lemma_find_char(t@, '\n', i as int);
        }
        let ghost before = views(r@);
        if k == t.len() {
            r.push(slice(t, i, k));
            assert(views(r@) =~= before.push(t@.subrange(i as int, k as int)));
            assert(lines(t@) =~= views(r@) + lines_from(t@, k as int));
            i = k;
        } else {
            let mut e = k;
            if e > i && t[e - 1] == '\r' {
                e = e - 1;
            }
            let piece = slice(t, i, e);
            assert(piece@ =~= strip_cr(t@.subrange(i as int, k as int)));
            r.push(piece);
            assert(views(r@) =~= before.push(strip_cr(t@.subrange(i as int, k as int))));
            assert(before + lines_from(t@, i as int) =~= views(r@) + lines_from(
                t@,
                k + 1,
            ));
            i = k + 1;
        }
    }
    assert(views(r@) + lines_from(t@, i as int) =~= views(r@));
    r
}

/// Text before the first `c`.
pub fn before_char_chars(t: &Vec<char>, c: char) -> (r: Vec<char>)
    ensures
        r@ == before_char(t@, c),
{
    let k = find_char_from(t, c, 0);
    proof {
        lemma_find_char(t@, c, 0);
    }
    slice(t, 0, k)
}

} // verus!
