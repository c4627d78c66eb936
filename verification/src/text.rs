//! Character and string helpers: decimal rendering, string equality,
//! substring search, whitespace trimming.

use vstd::prelude::*;
use vstd::string::*;

verus! {

/// The character of the decimal digit `d` (`d < 10`).
pub open spec fn digit_char(d: nat) -> char {
    (d + 48) as char
}

/// The shortest decimal rendering of `n`, without sign or leading zeros.
pub open spec fn decimal(n: nat) -> Seq<char>
    decreases n,
{
    if n < 10 {
        seq![digit_char(n)]
    } else {
        decimal(n / 10).push(digit_char(n % 10))
    }
}

/// The decimal rendering of a signed integer: a minus sign before the
/// rendering of its magnitude when it is negative.
pub open spec fn signed_decimal(n: int) -> Seq<char> {
    if n < 0 {
        seq!['-'] + decimal((-n) as nat)
    } else {
        decimal(n as nat)
    }
}

fn digit_str(d: u64) -> (r: &'static str)
    requires
        d < 10,
    ensures
        r@ == seq![digit_char(d as nat)],
{
    proof {
        reveal_strlit("0");
        reveal_strlit("1");
        reveal_strlit("2");
        reveal_strlit("3");
        reveal_strlit("4");
        reveal_strlit("5");
        reveal_strlit("6");
        reveal_strlit("7");
        reveal_strlit("8");
        reveal_strlit("9");
    }
    let r = match d {
        0 => "0",
        1 => "1",
        2 => "2",
        3 => "3",
        4 => "4",
        5 => "5",
        6 => "6",
        7 => "7",
        8 => "8",
        _ => "9",
    };
    assert(r@ =~= seq![digit_char(d as nat)]);
    r
}

/// Renders `n` in decimal, as `format!("{}", n)` does.
pub fn u64_to_decimal(n: u64) -> (r: String)
    ensures
        r@ == decimal(n as nat),
    decreases n,
{
    if n < 10 {
        String::from_str(digit_str(n))
    } else {
        let mut s = u64_to_decimal(n / 10);
        s.append(digit_str(n % 10));
        s
    }
}

/// Renders `n` in decimal, as `format!("{}", n)` does.
pub fn i64_to_decimal(n: i64) -> (r: String)
    ensures
        r@ == signed_decimal(n as int),
{
    if n < 0 {
        let magnitude: u64 = (0i128 - (n as i128)) as u64;
        let digits = u64_to_decimal(magnitude);
        let mut s = String::from_str("-");
        proof {
            reveal_strlit("-");
        }
        s.append(digits.as_str());
        s
    } else {
        u64_to_decimal(n as u64)
    }
}

/// Whether `c` is an ASCII decimal digit (`char::is_ascii_digit`).
pub open spec fn is_digit(c: char) -> bool {
    '0' <= c && c <= '9'
}

/// Whether `c` is an ASCII letter or digit.
pub open spec fn is_ascii_alphanumeric(c: char) -> bool {
    ('0' <= c && c <= '9') || ('a' <= c && c <= 'z') || ('A' <= c && c <= 'Z')
}

/// Whether `c` is an ASCII whitespace character of Unicode: tab, line feed,
/// vertical tab, form feed, carriage return or space.
pub open spec fn is_ascii_white_space(c: char) -> bool {
    c == '\t' || c == '\n' || c == '\u{0B}' || c == '\u{0C}' || c == '\r' || c == ' '
}

/// Whether `c` has the Unicode property Alphabetic or Numeric, as
/// `char::is_alphanumeric` decides it.
pub uninterp spec fn unicode_alphanumeric(c: char) -> bool;

/// Whether `c` has the Unicode property White_Space, as
/// `char::is_whitespace` decides it.
pub uninterp spec fn unicode_whitespace(c: char) -> bool;

/// `char::is_alphanumeric`: the contract claims that the result is the
/// Unicode decision named `unicode_alphanumeric`, and that on ASCII
/// characters it holds exactly of letters and digits.
#[verifier::external_body]
pub fn char_is_alphanumeric(c: char) -> (r: bool)
    ensures
        r == unicode_alphanumeric(c),
        (c as u32) < 128 ==> (r <==> is_ascii_alphanumeric(c)),
{
    c.is_alphanumeric()
}

/// `char::is_whitespace`: the contract claims that the result is the
/// Unicode decision named `unicode_whitespace`, and that on ASCII
/// characters it holds exactly of tab, line feed, vertical tab, form feed,
/// carriage return and space.
#[verifier::external_body]
pub fn char_is_whitespace(c: char) -> (r: bool)
    ensures
        r == unicode_whitespace(c),
        (c as u32) < 128 ==> (r <==> is_ascii_white_space(c)),
{
    c.is_whitespace()
}

/// The characters of `s`.
pub fn chars_of(s: &str) -> (r: Vec<char>)
    ensures
        r@ == s@,
{
    let n = s.unicode_len();
    let mut out: Vec<char> = Vec::new();
    let mut i: usize = 0;
    while i < n
        invariant
            n == s@.len(),
            i <= n,
            out@ =~= s@.take(i as int),
        decreases n - i,
    {
        out.push(s.get_char(i));
        i = i + 1;
    }
    assert(out@ =~= s@);
    out
}

/// `p` occurs in `s` at position `i`.
pub open spec fn occurs_at(s: Seq<char>, p: Seq<char>, i: int) -> bool {
    0 <= i && i + p.len() <= s.len() && s.subrange(i, i + p.len()) == p
}

/// The first position at or after `i` (`0 <= i`) where `p` occurs in `s`.
pub open spec fn find_from(s: Seq<char>, p: Seq<char>, i: int) -> Option<int>
    decreases s.len() + 1 - i,
{
    if i < 0 || i + p.len() > s.len() {
        None
    } else if occurs_at(s, p, i) {
        Some(i)
    } else {
        find_from(s, p, i + 1)
    }
}

/// The first position where `p` occurs in `s`, as `str::find` finds it
/// (counted in characters rather than bytes).
pub open spec fn find(s: Seq<char>, p: Seq<char>) -> Option<int> {
    find_from(s, p, 0)
}

/// Whether `p` occurs in `s` at position `i`.
pub fn occurs_at_chars(s: &Vec<char>, p: &Vec<char>, i: usize) -> (r: bool)
    requires
        i + p@.len() <= s@.len(),
    ensures
        r == occurs_at(s@, p@, i as int),
{
    let sl = s.len();
    let mut k: usize = 0;
    while k < p.len()
        invariant
            sl == s@.len(),
            i + p@.len() <= s@.len(),
            k <= p@.len(),
            forall|j: int| 0 <= j < k ==> s@[i + j] == p@[j],
        decreases p@.len() - k,
    {
        if s[i + k] != p[k] {
            assert(s@.subrange(i as int, i + p@.len())[k as int] != p@[k as int]);
            return false;
        }
        k = k + 1;
    }
    assert(s@.subrange(i as int, i + p@.len()) =~= p@);
    true
}

/// The first position where `p` occurs in `s`.
pub fn find_chars(s: &Vec<char>, p: &Vec<char>) -> (r: Option<usize>)
    ensures
        match find(s@, p@) {
            Some(i) => r == Some(i as usize),
            None => r is None,
        },
{
    if p.len() > s.len() {
        return None;
    }
    let last = s.len() - p.len();
    let mut i: usize = 0;
    loop
        invariant
            last == s@.len() - p@.len(),
            i <= last,
            find(s@, p@) == find_from(s@, p@, i as int),
        decreases last - i,
    {
        if occurs_at_chars(s, p, i) {
            return Some(i);
        }
        if i == last {
            assert(find_from(s@, p@, i + 1) is None);
            return None;
        }
        i = i + 1;
    }
}

/// The end of the run of characters satisfying `pred` that starts at `i`.
pub open spec fn run_end(s: Seq<char>, i: int, pred: spec_fn(char) -> bool) -> int
    decreases s.len() - i,
{
    if i < 0 || i >= s.len() {
        i
    } else if pred(s[i]) {
        run_end(s, i + 1, pred)
    } else {
        i
    }
}

/// The number of leading characters of `s` that are white space.
pub open spec fn leading_white(s: Seq<char>) -> nat
    decreases s.len(),
{
    if s.len() > 0 && unicode_whitespace(s[0]) {
        1 + leading_white(s.drop_first())
    } else {
        0
    }
}

/// The number of trailing characters of `s` that are white space.
pub open spec fn trailing_white(s: Seq<char>) -> nat
    decreases s.len(),
{
    if s.len() > 0 && unicode_whitespace(s.last()) {
        1 + trailing_white(s.drop_last())
    } else {
        0
    }
}

/// `s` without its leading and trailing white space (`str::trim`).
pub open spec fn trimmed(s: Seq<char>) -> Seq<char> {
    let rest = s.skip(leading_white(s) as int);
    rest.take(rest.len() - trailing_white(rest))
}

/// The leading white space ends at the first character that is not white
/// space.
pub proof fn lemma_leading_white(s: Seq<char>, i: int)
    requires
        0 <= i <= s.len(),
        forall|k: int| 0 <= k < i ==> unicode_whitespace(#[trigger] s[k]),
        i == s.len() || !unicode_whitespace(s[i]),
    ensures
        leading_white(s) == i,
    decreases i,
{
    if i > 0 {
        let t = s.drop_first();
        assert forall|k: int| 0 <= k < i - 1 implies unicode_whitespace(#[trigger] t[k]) by {
            assert(t[k] == s[k + 1]);
        }
        lemma_leading_white(t, i - 1);
    }
}

/// The trailing white space starts after the last character that is not
/// white space.
pub proof fn lemma_trailing_white(s: Seq<char>, j: int)
    requires
        0 <= j <= s.len(),
        forall|k: int| j <= k < s.len() ==> unicode_whitespace(#[trigger] s[k]),
        j == 0 || !unicode_whitespace(s[j - 1]),
    ensures
        trailing_white(s) == s.len() - j,
    decreases s.len() - j,
{
    if j < s.len() {
        let t = s.drop_last();
        assert forall|k: int| j <= k < t.len() implies unicode_whitespace(#[trigger] t[k]) by {
            assert(t[k] == s[k]);
        }
        lemma_trailing_white(t, j);
    }
}

/// `s` without leading and trailing white space, as `str::trim` gives it.
pub fn trim(s: &str) -> (r: String)
    ensures
        r@ == trimmed(s@),
{
    let cs = chars_of(s);
    let n = cs.len();
    let mut i: usize = 0;
    while i < n && char_is_whitespace(cs[i])
        invariant
            n == cs@.len(),
            cs@ == s@,
            i <= n,
            forall|k: int| 0 <= k < i ==> unicode_whitespace(#[trigger] cs@[k]),
        decreases n - i,
    {
        i = i + 1;
    }
    let mut j: usize = n;
    while j > i && char_is_whitespace(cs[j - 1])
        invariant
            n == cs@.len(),
            cs@ == s@,
            i <= j <= n,
            forall|k: int| j <= k < n ==> unicode_whitespace(#[trigger] cs@[k]),
        decreases j,
    {
        j = j - 1;
    }
    proof {
        lemma_leading_white(s@, i as int);
        let rest = s@.skip(i as int);
        assert forall|k: int| j - i <= k < rest.len() implies unicode_whitespace(#[trigger] rest[k]) by {
            assert(rest[k] == s@[i + k]);
        }
        if j > i {
            assert(rest[j - i - 1] == s@[j - 1]);
        }
        lemma_trailing_white(rest, j - i);
        assert(trimmed(s@) =~= s@.subrange(i as int, j as int));
    }
    String::from_str(s.substring_char(i, j))
}

/// The texts of a list of strings.
pub open spec fn texts(list: Seq<String>) -> Seq<Seq<char>> {
    list.map_values(|s: String| s@)
}

/// A position that `find_from` returns is at or after `i` and holds `p`.
pub proof fn lemma_find_from_bounds(s: Seq<char>, p: Seq<char>, i: int)
    ensures
        find_from(s, p, i) matches Some(k) ==> i <= k && occurs_at(s, p, k),
    decreases s.len() + 1 - i,
{
    if !(i < 0 || i + p.len() > s.len()) && !occurs_at(s, p, i) {
        lemma_find_from_bounds(s, p, i + 1);
    }
}

/// A position that `find` returns lies within `s` and holds `p`.
pub proof fn lemma_find_bounds(s: Seq<char>, p: Seq<char>)
    ensures
        find(s, p) matches Some(k) ==> 0 <= k && k + p.len() <= s.len() && s.subrange(k, k + p.len()) == p,
{
    lemma_find_from_bounds(s, p, 0);
}

proof fn lemma_find_char_from(t: Seq<char>, c: char, i: int, m: int)
    requires
        0 <= i <= m <= t.len(),
        forall|k: int| i <= k < m ==> #[trigger] t[k] != c,
        m == t.len() || t[m] == c,
    ensures
        find_from(t, seq![c], i) == (if m < t.len() { Some(m) } else { None::<int> }),
    decreases m - i,
{
    if i < m {
        if t.subrange(i, i + 1) == seq![c] {
            assert(t.subrange(i, i + 1)[0] == t[i]);
        }
        lemma_find_char_from(t, c, i + 1, m);
    } else if m < t.len() {
        assert(t.subrange(m, m + 1) =~= seq![c]);
    }
}

/// Scanning for a character agrees with `find` of that character.
pub proof fn lemma_find_char(t: Seq<char>, c: char, m: int)
    requires
        0 <= m <= t.len(),
        forall|k: int| 0 <= k < m ==> #[trigger] t[k] != c,
        m == t.len() || t[m] == c,
    ensures
        find(t, seq![c]) == (if m < t.len() { Some(m) } else { None::<int> }),
{
    lemma_find_char_from(t, c, 0, m);
}

/// The pieces of `s` between the occurrences of `c` (`str::split` by a
/// character).
pub open spec fn split_on(s: Seq<char>, c: char) -> Seq<Seq<char>>
    decreases s.len(),
{
    match find(s, seq![c]) {
        None => seq![s],
        Some(j) => {
            proof {
                lemma_find_bounds(s, seq![c]);
            }
            seq![s.take(j)] + split_on(s.skip(j + 1), c)
        },
    }
}

/// A line without the carriage return that ended it.
pub open spec fn without_cr(line: Seq<char>) -> Seq<char> {
    if line.len() > 0 && line.last() == '\r' {
        line.drop_last()
    } else {
        line
    }
}

/// The lines of `s` (`str::lines`): the pieces between line feeds, a
/// carriage return before a line feed dropped, and no empty line after a
/// final line feed.
pub open spec fn lines(s: Seq<char>) -> Seq<Seq<char>>
    decreases s.len(),
{
    if s.len() == 0 {
        Seq::empty()
    } else {
        match find(s, seq!['\n']) {
            None => seq![s],
            Some(j) => {
                proof {
                    lemma_find_bounds(s, seq!['\n']);
                }
                seq![without_cr(s.take(j))] + lines(s.skip(j + 1))
            },
        }
    }
}

/// The first position at or after `from` holding `c`, or the length.
fn next_index_of(cs: &Vec<char>, c: char, from: usize) -> (j: usize)
    requires
        from <= cs@.len(),
    ensures
        from <= j <= cs@.len(),
        forall|k: int| from <= k < j ==> #[trigger] cs@[k] != c,
        j < cs@.len() ==> cs@[j as int] == c,
{
    let mut j = from;
    while j < cs.len() && cs[j] != c
        invariant
            from <= j <= cs@.len(),
            forall|k: int| from <= k < j ==> #[trigger] cs@[k] != c,
        decreases cs@.len() - j,
    {
        j = j + 1;
    }
    j
}

/// The pieces of `s` between the occurrences of `c`.
pub fn split_text(s: &str, c: char) -> (r: Vec<String>)
    ensures
        texts(r@) == split_on(s@, c),
{
    let cs = chars_of(s);
    let n = cs.len();
    let mut parts: Vec<String> = Vec::new();
    let mut pos: usize = 0;
    assert(s@.skip(0) =~= s@);
    loop
        invariant
            n == cs@.len(),
            cs@ == s@,
            pos <= n,
            split_on(s@, c) =~= texts(parts@) + split_on(s@.skip(pos as int), c),
        decreases n - pos,
    {
        let j = next_index_of(&cs, c, pos);
        let piece = String::from_str(s.substring_char(pos, j));
        proof {
            let t = s@.skip(pos as int);
            assert forall|k: int| 0 <= k < j - pos implies #[trigger] t[k] != c by {
                assert(t[k] == cs@[pos + k]);
            }
            if j < n {
                assert(t[j - pos] == cs@[j as int]);
            }
            lemma_find_char(t, c, j - pos);
            assert(t.take(j - pos) =~= s@.subrange(pos as int, j as int));
            if j < n {
                assert(t.skip(j - pos + 1) =~= s@.skip(j + 1));
            }
        }
        if j == n {
            parts.push(piece);
            assert(s@.skip(pos as int) =~= s@.subrange(pos as int, j as int));
            assert(texts(parts@) =~= split_on(s@, c));
            return parts;
        }
        parts.push(piece);
        pos = j + 1;
    }
}

/// The lines of `s`, as `str::lines` gives them.
pub fn lines_of(s: &str) -> (r: Vec<String>)
    ensures
        texts(r@) == lines(s@),
{
    let cs = chars_of(s);
    let n = cs.len();
    let mut out: Vec<String> = Vec::new();
    let mut pos: usize = 0;
    assert(s@.skip(0) =~= s@);
    while pos < n
        invariant
            n == cs@.len(),
            cs@ == s@,
            pos <= n,
            lines(s@) =~= texts(out@) + lines(s@.skip(pos as int)),
        decreases n - pos,
    {
        let j = next_index_of(&cs, '\n', pos);
        let end = if j < n && j > pos && cs[j - 1] == '\r' {
            j - 1
        } else {
            j
        };
        let line = String::from_str(s.substring_char(pos, end));
        proof {
            let t = s@.skip(pos as int);
            assert forall|k: int| 0 <= k < j - pos implies #[trigger] t[k] != '\n' by {
                assert(t[k] == cs@[pos + k]);
            }
            if j < n {
                assert(t[j - pos] == cs@[j as int]);
                assert(without_cr(t.take(j - pos)) =~= s@.subrange(pos as int, end as int));
            } else {
                assert(t =~= s@.subrange(pos as int, end as int));
            }
            lemma_find_char(t, '\n', j - pos);
            if j < n {
                assert(t.skip(j - pos + 1) =~= s@.skip(j + 1));
            }
        }
        out.push(line);
        if j == n {
            pos = n;
        } else {
            pos = j + 1;
        }
    }
    assert(s@.skip(n as int) =~= Seq::<char>::empty());
    assert(lines(s@.skip(n as int)) =~= Seq::<Seq<char>>::empty());
    out
}

/// Trimming: the trimmed text neither starts nor ends with white space, and
/// trimming it again leaves it as it is.
pub proof fn lemma_trimmed(s: Seq<char>)
    ensures
        trimmed(s).len() > 0 ==> !unicode_whitespace(trimmed(s)[0]) && !unicode_whitespace(trimmed(s).last()),
        trimmed(trimmed(s)) == trimmed(s),
{
    let a = leading_white(s) as int;
    lemma_leading_white_props(s);
    let rest = s.skip(a);
    lemma_trailing_white_props(rest);
    let b = trailing_white(rest) as int;
    let t = trimmed(s);
    assert(t == rest.take(rest.len() - b));
    if t.len() > 0 {
        assert(t[0] == rest[0]);
        assert(t.last() == rest[rest.len() - b - 1]);
        lemma_leading_white(t, 0);
        lemma_trailing_white(t, t.len() as int);
        assert(t.skip(0) =~= t);
        assert(t.take(t.len() as int) =~= t);
    } else {
        assert(trimmed(t) =~= t);
    }
}

proof fn lemma_leading_white_props(s: Seq<char>)
    ensures
        leading_white(s) <= s.len(),
        forall|k: int| 0 <= k < leading_white(s) ==> unicode_whitespace(#[trigger] s[k]),
        leading_white(s) < s.len() ==> !unicode_whitespace(s[leading_white(s) as int]),
    decreases s.len(),
{
    if s.len() > 0 && unicode_whitespace(s[0]) {
        let t = s.drop_first();
        lemma_leading_white_props(t);
        assert forall|k: int| 0 <= k < leading_white(s) implies unicode_whitespace(#[trigger] s[k]) by {
            if k > 0 {
                assert(s[k] == t[k - 1]);
            }
        }
        if leading_white(s) < s.len() {
            assert(s[leading_white(s) as int] == t[leading_white(t) as int]);
        }
    }
}

proof fn lemma_trailing_white_props(s: Seq<char>)
    ensures
        trailing_white(s) <= s.len(),
        forall|k: int| s.len() - trailing_white(s) <= k < s.len() ==> unicode_whitespace(#[trigger] s[k]),
        trailing_white(s) < s.len() ==> !unicode_whitespace(s[s.len() - trailing_white(s) - 1]),
    decreases s.len(),
{
    if s.len() > 0 && unicode_whitespace(s.last()) {
        let t = s.drop_last();
        lemma_trailing_white_props(t);
        assert forall|k: int| s.len() - trailing_white(s) <= k < s.len() implies unicode_whitespace(#[trigger] s[k]) by {
            if k < s.len() - 1 {
                assert(s[k] == t[k]);
            }
        }
        if trailing_white(s) < s.len() {
            assert(s[s.len() - trailing_white(s) - 1] == t[t.len() - trailing_white(t) - 1]);
        }
    }
}

/// `find` gives the first occurrence: `p` occurs where it points and at no
/// earlier position; when it gives nothing, `p` occurs nowhere.
pub proof fn lemma_find_first(s: Seq<char>, p: Seq<char>)
    ensures
        find(s, p) matches Some(i) ==> s.subrange(i, i + p.len()) == p && 0 <= i && i + p.len() <= s.len()
            && forall|j: int| 0 <= j < i ==> !(#[trigger] occurs_at(s, p, j)),
        find(s, p) is None ==> forall|j: int| !(#[trigger] occurs_at(s, p, j)),
{
    lemma_find_from_first(s, p, 0);
}

proof fn lemma_find_from_first(s: Seq<char>, p: Seq<char>, i: int)
    requires
        0 <= i,
    ensures
        find_from(s, p, i) matches Some(k) ==> occurs_at(s, p, k) && i <= k && forall|j: int|
            i <= j < k ==> !(#[trigger] occurs_at(s, p, j)),
        find_from(s, p, i) is None ==> forall|j: int| i <= j ==> !(#[trigger] occurs_at(s, p, j)),
    decreases s.len() + 1 - i,
{
    if !(i + p.len() > s.len()) && !occurs_at(s, p, i) {
        lemma_find_from_first(s, p, i + 1);
    }
}

} // verus!
