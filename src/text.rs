//! Character-level scanning of one line of monitor output.

use vstd::prelude::*;
use vstd::std_specs::iter::IteratorSpec;

verus! {

/// Characters with the Unicode `White_Space` property: what `char::is_whitespace`,
/// `str::trim` and the `\s` class treat as blank.
pub open spec fn is_ws(c: char) -> bool {
    c == '\t' || c == '\n' || c == '\u{0B}' || c == '\u{0C}' || c == '\r' || c == ' '
        || c == '\u{85}' || c == '\u{A0}' || c == '\u{1680}'
        || ('\u{2000}' <= c && c <= '\u{200A}')
        || c == '\u{2028}' || c == '\u{2029}' || c == '\u{202F}' || c == '\u{205F}'
        || c == '\u{3000}'
}

pub fn is_whitespace(c: char) -> (r: bool)
    ensures
        r == is_ws(c),
{
    c == '\t' || c == '\n' || c == '\u{0B}' || c == '\u{0C}' || c == '\r' || c == ' '
        || c == '\u{85}' || c == '\u{A0}' || c == '\u{1680}'
        || ('\u{2000}' <= c && c <= '\u{200A}')
        || c == '\u{2028}' || c == '\u{2029}' || c == '\u{202F}' || c == '\u{205F}'
        || c == '\u{3000}'
}

/// The characters of `s`, in order.
pub fn chars_of(s: &str) -> (r: Vec<char>)
    ensures
        r@ == s@,
{
    let mut out: Vec<char> = Vec::new();
    for c in it: s.chars()
        invariant
            out@ == it.history(),
    {
        out.push(c);
    }
    assert(out@ =~= s@);
    out
}

/// Index of the first non-blank character at or after `i`, or `s.len()`.
pub open spec fn skip_ws(s: Seq<char>, i: int) -> int
    decreases s.len() - i,
{
    if 0 <= i < s.len() && is_ws(s[i]) {
        skip_ws(s, i + 1)
    } else {
        i
    }
}

/// Index of the first blank character at or after `i`, or `s.len()`.
pub open spec fn token_end(s: Seq<char>, i: int) -> int
    decreases s.len() - i,
{
    if 0 <= i < s.len() && !is_ws(s[i]) {
        token_end(s, i + 1)
    } else {
        i
    }
}

/// Index just after the last non-blank character before `j`.
pub open spec fn trim_end(s: Seq<char>, j: int) -> int
    decreases j,
{
    if 0 < j <= s.len() && is_ws(s[j - 1]) {
        trim_end(s, j - 1)
    } else {
        j
    }
}

/// `s` without its leading and trailing blanks.
pub open spec fn trim(s: Seq<char>) -> Seq<char> {
    let lo = skip_ws(s, 0);
    if lo >= s.len() {
        Seq::empty()
    } else {
        s.subrange(lo, trim_end(s, s.len() as int))
    }
}

/// The maximal runs of non-blank characters of `s` from `i` on.
pub open spec fn words_from(s: Seq<char>, i: int) -> Seq<Seq<char>>
    decreases s.len() - i via words_from_decreases
{
    let a = skip_ws(s, i);
    if 0 <= i && a < s.len() {
        seq![s.subrange(a, token_end(s, a))] + words_from(s, token_end(s, a))
    } else {
        Seq::empty()
    }
}

pub proof fn lemma_skip_ws(s: Seq<char>, i: int)
    requires
        0 <= i,
    ensures
        i <= skip_ws(s, i),
        i <= s.len() ==> skip_ws(s, i) <= s.len(),
        skip_ws(s, i) < s.len() ==> !is_ws(s[skip_ws(s, i)]),
        forall|k: int| i <= k < skip_ws(s, i) ==> is_ws(#[trigger] s[k]),
    decreases s.len() - i,
{
    if 0 <= i < s.len() && is_ws(s[i]) {
        lemma_skip_ws(s, i + 1);
    }
}

pub proof fn lemma_token_end(s: Seq<char>, i: int)
    requires
        0 <= i,
    ensures
        i <= token_end(s, i),
        i <= s.len() ==> token_end(s, i) <= s.len(),
        token_end(s, i) < s.len() ==> is_ws(s[token_end(s, i)]),
        forall|k: int| i <= k < token_end(s, i) ==> !is_ws(#[trigger] s[k]),
    decreases s.len() - i,
{
    if 0 <= i < s.len() && !is_ws(s[i]) {
        lemma_token_end(s, i + 1);
    }
}

pub proof fn lemma_trim_end(s: Seq<char>, k: int, j: int)
    requires
        0 <= k < j <= s.len(),
        !is_ws(s[k]),
    ensures
        k < trim_end(s, j) <= j,
        !is_ws(s[trim_end(s, j) - 1]),
    decreases j,
{
    if is_ws(s[j - 1]) {
        lemma_trim_end(s, k, j - 1);
    }
}

/// A non-empty trimmed line starts and ends with a non-blank character.
pub proof fn lemma_trim_ends(s: Seq<char>)
    requires
        trim(s).len() > 0,
    ensures
        !is_ws(trim(s)[0]),
        !is_ws(trim(s)[trim(s).len() - 1]),
{
    lemma_skip_ws(s, 0);
    let lo = skip_ws(s, 0);
    lemma_trim_end(s, lo, s.len() as int);
}

/// On a line that starts and ends with non-blank characters, capped splitting
/// never gives more fields than there are words.
pub proof fn lemma_fields_within_words(t: Seq<char>, i: int, n: nat)
    requires
        0 <= i < t.len(),
        !is_ws(t[i]),
        !is_ws(t[t.len() - 1]),
    ensures
        fields_from(t, i, n).len() <= words_from(t, i).len(),
    decreases n,
{
    lemma_skip_ws(t, i);
    lemma_token_end(t, i);
    let e = token_end(t, i);
    assert(skip_ws(t, i) == i);
    if n >= 2 && e < t.len() {
        lemma_skip_ws(t, e);
        let b = skip_ws(t, e);
        if b >= t.len() {
            assert(is_ws(t[t.len() - 1]));
        }
        assert(skip_ws(t, b) == b);
        lemma_fields_within_words(t, b, (n - 1) as nat);
        assert(words_from(t, e) == words_from(t, b));
    }
}

#[via_fn]
proof fn words_from_decreases(s: Seq<char>, i: int) {
    if 0 <= i {
        lemma_skip_ws(s, i);
        let a = skip_ws(s, i);
        if a < s.len() {
            lemma_token_end(s, a + 1);
        }
    }
}

pub open spec fn words(s: Seq<char>) -> Seq<Seq<char>> {
    words_from(s, 0)
}

/// At most `n` fields of `s` from `i` on, split at runs of blanks: the last
/// field holds all that remains, blanks included.
pub open spec fn fields_from(s: Seq<char>, i: int, n: nat) -> Seq<Seq<char>>
    decreases n,
{
    if n == 0 {
        Seq::empty()
    } else if n == 1 || !(0 <= i <= s.len()) {
        seq![s.subrange(i, s.len() as int)]
    } else {
        let e = token_end(s, i);
        if e >= s.len() {
            seq![s.subrange(i, e)]
        } else {
            seq![s.subrange(i, e)] + fields_from(s, skip_ws(s, e), (n - 1) as nat)
        }
    }
}

pub open spec fn fields(s: Seq<char>, n: nat) -> Seq<Seq<char>> {
    fields_from(s, 0, n)
}

/// The text of each string.
pub open spec fn views(v: Seq<String>) -> Seq<Seq<char>> {
    v.map_values(|x: String| x@)
}

fn skip_blanks(s: &Vec<char>, i: usize) -> (r: usize)
    requires
        i <= s@.len(),
    ensures
        r == skip_ws(s@, i as int),
        i <= r <= s@.len(),
{
    let mut j: usize = i;
    while j < s.len() && is_whitespace(s[j])
        invariant
            i <= j <= s@.len(),
            skip_ws(s@, i as int) == skip_ws(s@, j as int),
        decreases s@.len() - j,
    {
        j = j + 1;
    }
    j
}

fn skip_token(s: &Vec<char>, i: usize) -> (r: usize)
    requires
        i <= s@.len(),
    ensures
        r == token_end(s@, i as int),
        i <= r <= s@.len(),
{
    let mut j: usize = i;
    while j < s.len() && !is_whitespace(s[j])
        invariant
            i <= j <= s@.len(),
            token_end(s@, i as int) == token_end(s@, j as int),
        decreases s@.len() - j,
    {
        j = j + 1;
    }
    j
}

/// The line with its leading and trailing blanks removed, as text and as characters.
pub fn trimmed(line: &str) -> (r: (&str, Vec<char>))
    ensures
        r.0@ == trim(line@),
        r.1@ == trim(line@),
{
    let cs = chars_of(line);
    let lo = skip_blanks(&cs, 0);
    proof {
        lemma_skip_ws(cs@, 0);
    }
    if lo >= cs.len() {
        let t = line.substring_char(0, 0);
        assert(t@ =~= trim(line@));
        let v: Vec<char> = Vec::new();
        return (t, v);
    }
    let mut hi: usize = cs.len();
    while hi > 0 && is_whitespace(cs[hi - 1])
        invariant
            lo < hi <= cs@.len(),
            !is_ws(cs@[lo as int]),
            trim_end(cs@, cs@.len() as int) == trim_end(cs@, hi as int),
        decreases hi,
    {
        hi = hi - 1;
    }
    let t = line.substring_char(lo, hi);
    let v = chars_of(t);
    (t, v)
}

/// The words of `t`, a string whose characters are `cs`.
pub fn split_words(t: &str, cs: &Vec<char>) -> (r: Vec<String>)
    requires
        cs@ == t@,
    ensures
        views(r@) == words(t@),
{
    let mut out: Vec<String> = Vec::new();
    let mut i: usize = 0;
    loop
        invariant
            i <= cs@.len(),
            cs@ == t@,
            words(t@) == views(out@) + words_from(t@, i as int),
        ensures
            views(out@) == words(t@),
        decreases cs@.len() - i,
    {
        let a = skip_blanks(cs, i);
        if a >= cs.len() {
            assert(words_from(t@, i as int) == Seq::<Seq<char>>::empty());
            assert(views(out@) + Seq::<Seq<char>>::empty() =~= views(out@));
            break;
        }
        let e = skip_token(cs, a);
        let w = t.substring_char(a, e).to_owned();
        proof {
            assert(views(out@.push(w)) =~= views(out@).push(w@));
            assert(words_from(t@, i as int) == seq![t@.subrange(a as int, e as int)]
                + words_from(t@, e as int));
            assert(views(out@) + words_from(t@, i as int) =~= views(out@).push(w@)
                + words_from(t@, e as int));
        }
        out.push(w);
        i = e;
    }
    out
}

/// At most `n` fields of `t`, a string whose characters are `cs`.
pub fn split_fields(t: &str, cs: &Vec<char>, n: usize) -> (r: Vec<String>)
    requires
        cs@ == t@,
    ensures
        views(r@) == fields(t@, n as nat),
{
    let mut out: Vec<String> = Vec::new();
    if n == 0 {
        assert(views(out@) =~= fields(t@, 0));
        return out;
    }
    let mut i: usize = 0;
    let mut k: usize = n;
    loop
        invariant_except_break
            fields(t@, n as nat) == views(out@) + fields_from(t@, i as int, k as nat),
        invariant
            i <= cs@.len(),
            cs@ == t@,
            1 <= k <= n,
        ensures
            views(out@) == fields(t@, n as nat),
        decreases k,
    {
        if k == 1 {
            let w = t.substring_char(i, cs.len()).to_owned();
            proof {
                assert(views(out@.push(w)) =~= views(out@).push(w@));
                assert(views(out@) + fields_from(t@, i as int, k as nat) =~= views(out@).push(w@));
            }
            out.push(w);
            break;
        }
        let e = skip_token(cs, i);
        let w = t.substring_char(i, e).to_owned();
        proof {
            assert(views(out@.push(w)) =~= views(out@).push(w@));
        }
        if e >= cs.len() {
            proof {
                assert(views(out@) + fields_from(t@, i as int, k as nat) =~= views(out@).push(w@));
            }
            out.push(w);
            break;
        }
        let b = skip_blanks(cs, e);
        proof {
            assert(views(out@) + fields_from(t@, i as int, k as nat) =~= views(out@).push(w@)
                + fields_from(t@, b as int, (k - 1) as nat));
        }
        out.push(w);
        i = b;
        k = k - 1;
    }
    out
}

/// Whether `" up"` starts at index `j` of `s`.
pub open spec fn up_at(s: Seq<char>, j: int) -> bool {
    0 <= j && j + 3 <= s.len() && s[j] == ' ' && s[j + 1] == 'u' && s[j + 2] == 'p'
}

/// The end of the shortest non-empty stamp after `"top - "` that is followed by
/// `" up"`, searching from end `j`; a line break inside the stamp stops the search.
pub open spec fn find_up(s: Seq<char>, j: int) -> Option<int>
    decreases s.len() + 1 - j,
{
    if j < 1 || j > s.len() {
        None
    } else if s[j - 1] == '\n' {
        None
    } else if up_at(s, j) {
        Some(j)
    } else {
        find_up(s, j + 1)
    }
}

pub open spec fn starts_with_top(s: Seq<char>) -> bool {
    s.len() >= 6 && s[0] == 't' && s[1] == 'o' && s[2] == 'p' && s[3] == ' ' && s[4] == '-'
        && s[5] == ' '
}

/// The time stamp of a block's first line (already trimmed): the text between a
/// leading `"top - "` and the first `" up"` after it.
pub open spec fn header_stamp(s: Seq<char>) -> Option<Seq<char>> {
    if starts_with_top(s) {
        match find_up(s, 7) {
            Some(j) => Some(s.subrange(6, j)),
            None => None,
        }
    } else {
        None
    }
}

/// The time stamp of `t`, a trimmed line whose characters are `cs`, if it opens a block.
pub fn header_time(t: &str, cs: &Vec<char>) -> (r: Option<String>)
    requires
        cs@ == t@,
    ensures
        r matches Some(x) ==> header_stamp(t@) == Some(x@),
        r is None ==> header_stamp(t@) is None,
{
    if !(cs.len() >= 6 && cs[0] == 't' && cs[1] == 'o' && cs[2] == 'p' && cs[3] == ' '
        && cs[4] == '-' && cs[5] == ' ') {
        return None;
    }
    let mut j: usize = 7;
    while j < cs.len()
        invariant
            7 <= j,
            j <= cs@.len() || (j == 7 && cs@.len() == 6),
            cs@ == t@,
            starts_with_top(t@),
            find_up(t@, 7) == find_up(t@, j as int),
        decreases cs@.len() + 1 - j,
    {
        if cs[j - 1] == '\n' {
            return None;
        }
        if j < cs.len() && cs.len() - j >= 3 && cs[j] == ' ' && cs[j + 1] == 'u' && cs[j + 2] == 'p' {
            let x = t.substring_char(6, j).to_owned();
            return Some(x);
        }
        j = j + 1;
    }
    if j == cs.len() && cs[j - 1] != '\n' {
        assert(!up_at(t@, j as int));
        assert(find_up(t@, j as int + 1) is None);
    }
    None
}

pub open spec fn is_digit(c: char) -> bool {
    '0' <= c && c <= '9'
}

/// The number that a string of decimal digits writes.
pub open spec fn digits_value(d: Seq<char>) -> nat
    decreases d.len(),
{
    if d.len() == 0 {
        0
    } else {
        digits_value(d.drop_last()) * 10 + (d.last() as nat - '0' as nat) as nat
    }
}

/// The digits of a PID field: a single leading `+` is allowed before them.
pub open spec fn pid_digits(s: Seq<char>) -> Seq<char> {
    if s.len() > 1 && s[0] == '+' {
        s.drop_first()
    } else {
        s
    }
}

pub open spec fn all_digits(d: Seq<char>) -> bool {
    forall|k: int| 0 <= k < d.len() ==> is_digit(#[trigger] d[k])
}

/// What `u32`'s `FromStr` gives for `s`: a number when `s` is an optional `+`
/// and at least one decimal digit whose value fits.
pub open spec fn parse_u32_spec(s: Seq<char>) -> Option<u32> {
    let d = pid_digits(s);
    if d.len() > 0 && all_digits(d) && digits_value(d) <= u32::MAX {
        Some(digits_value(d) as u32)
    } else {
        None
    }
}

proof fn lemma_digits_value_grows(d: Seq<char>, i: int, j: int)
    requires
        0 <= i <= j <= d.len(),
        forall|k: int| 0 <= k < d.len() ==> is_digit(#[trigger] d[k]),
    ensures
        digits_value(d.subrange(0, i)) <= digits_value(d.subrange(0, j)),
    decreases j - i,
{
    if i < j {
        lemma_digits_value_grows(d, i, j - 1);
        assert(d.subrange(0, j).drop_last() =~= d.subrange(0, j - 1));
        assert(is_digit(d[j - 1]));
    }
}

/// Reads a PID field as `u32`'s `FromStr` does.
pub fn parse_pid(s: &str) -> (r: Option<u32>)
    ensures
        r == parse_u32_spec(s@),
{
    let cs = chars_of(s);
    let start: usize = if cs.len() > 1 && cs[0] == '+' { 1 } else { 0 };
    let ghost d = pid_digits(s@);
    assert(d =~= cs@.subrange(start as int, cs@.len() as int));
    if start >= cs.len() {
        assert(d.len() == 0);
        return None;
    }
    let mut k: usize = start;
    while k < cs.len()
        invariant
            start <= k <= cs@.len(),
            d == cs@.subrange(start as int, cs@.len() as int),
            d == pid_digits(s@),
            forall|m: int| 0 <= m < k - start ==> is_digit(#[trigger] d[m]),
        decreases cs@.len() - k,
    {
        if !('0' <= cs[k] && cs[k] <= '9') {
            assert(d[k - start] == cs@[k as int]);
            assert(!is_digit(d[k - start]));
            assert(!all_digits(d));

            return None;
        }
        k = k + 1;
    }
    let mut acc: u64 = 0;
    let mut i: usize = start;
    while i < cs.len()
        invariant
            start <= i <= cs@.len(),
            d == cs@.subrange(start as int, cs@.len() as int),
            d == pid_digits(s@),
            forall|m: int| 0 <= m < d.len() ==> is_digit(#[trigger] d[m]),
            acc == digits_value(d.subrange(0, i - start)),
            acc <= u32::MAX,
        decreases cs@.len() - i,
    {
        let c = cs[i];
        proof {
            assert(d.subrange(0, i - start + 1).drop_last() =~= d.subrange(0, i - start));
            assert(d[i - start] == c);
            assert(is_digit(c));
        }
        let dig: u64 = (c as u32 - '0' as u32) as u64;
        let v: u64 = acc * 10 + dig;
        if v > 0xFFFF_FFFF {
            proof {
                lemma_digits_value_grows(d, i - start + 1, d.len() as int);
                assert(d.subrange(0, d.len() as int) =~= d);
                assert(digits_value(d) > u32::MAX);
            }
            return None;
        }
        acc = v;
        i = i + 1;
    }
    assert(d.subrange(0, d.len() as int) =~= d);
    Some(acc as u32)
}

} // verus!
