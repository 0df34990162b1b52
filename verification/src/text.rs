//! Character-level helpers: decimal rendering, padding, whitespace
//! classification, token splitting and substring search.

use vstd::prelude::*;

verus! {

/// The character of a decimal digit `d` (`0 <= d < 10`).
pub open spec fn digit_char(d: int) -> char {
    ((48 + d) as u8) as char
}

/// Decimal digits of a natural number, most significant first, no leading zeros.
pub open spec fn digits(n: nat) -> Seq<char>
    decreases n,
{
    if n < 10 {
        seq![digit_char(n as int)]
    } else {
        digits(n / 10).push(digit_char((n % 10) as int))
    }
}

/// The text that Rust's `{}` writes for an integer.
pub open spec fn decimal(v: int) -> Seq<char> {
    if v < 0 {
        seq!['-'] + digits((-v) as nat)
    } else {
        digits(v as nat)
    }
}

/// `s` right-aligned in a field of `width` characters, as `{:>width}` does.
pub open spec fn pad_left(s: Seq<char>, width: nat) -> Seq<char> {
    if s.len() >= width {
        s
    } else {
        Seq::new((width - s.len()) as nat, |i: int| ' ') + s
    }
}

/// The text of `{:>3}` applied to an integer.
pub open spec fn decimal3(v: int) -> Seq<char> {
    pad_left(decimal(v), 3)
}

/// Appends one character to a string.
/// Trusted: `String::push`, which the standard library documents as
/// appending the given char to the end of the string.
#[verifier::external_body]
pub(crate) fn push_char(s: &mut String, c: char)
    ensures
        final(s)@ == old(s)@.push(c),
{
    s.push(c);
}

fn digit_to_char(d: u64) -> (c: char)
    requires
        d < 10,
    ensures
        c == digit_char(d as int),
{
    let b: u8 = 48u8 + (d as u8);
    b as char
}

fn push_digits(s: &mut String, n: u64)
    ensures
        final(s)@ == old(s)@ + digits(n as nat),
    decreases n,
{
    if n >= 10 {
        push_digits(s, n / 10);
    }
    let c = digit_to_char(n % 10);
    push_char(s, c);
    assert(final(s)@ =~= old(s)@ + digits(n as nat));
}

/// Appends the decimal text of `v` to `s`.
pub fn push_decimal(s: &mut String, v: i64)
    ensures
        final(s)@ == old(s)@ + decimal(v as int),
{
    if v < 0 {
        push_char(s, '-');
        let m: u64 = if v == i64::MIN {
            9223372036854775808u64
        } else {
            (-v) as u64
        };
        push_digits(s, m);
        assert(final(s)@ =~= old(s)@ + decimal(v as int));
    } else {
        push_digits(s, v as u64);
    }
}

/// Appends `t` right-aligned in a field of `width` characters to `s`.
pub fn push_padded(s: &mut String, t: &str, width: usize)
    ensures
        final(s)@ == old(s)@ + pad_left(t@, width as nat),
{
    let len = t.unicode_len();
    let ghost start = s@;
    if len < width {
        let mut k: usize = len;
        while k < width
            invariant
                len <= k <= width,
                len == t@.len(),
                s@ == start + Seq::new((k - len) as nat, |i: int| ' '),
            decreases width - k,
        {
            push_char(s, ' ');
            k = k + 1;
            assert(s@ =~= start + Seq::new((k - len) as nat, |i: int| ' '));
        }
    }
    s.append(t);
    assert(s@ =~= start + pad_left(t@, width as nat));
}

/// Appends the text of `{:>3}` applied to `v` to `s`.
pub fn push_decimal3(s: &mut String, v: i64)
    ensures
        final(s)@ == old(s)@ + decimal3(v as int),
{
    let mut digits_text = String::new();
    push_decimal(&mut digits_text, v);
    assert(digits_text@ =~= decimal(v as int));
    push_padded(s, digits_text.as_str(), 3);
}

/// The characters of a string slice.
pub fn text_chars(s: &str) -> (out: Vec<char>)
    ensures
        out@ == s@,
{
    broadcast use vstd::string::group_string_axioms;

    let mut out: Vec<char> = Vec::new();
    for c in it: s.chars()
        invariant
            out@ == it.seq().take(it.index() as int),
    {
        out.push(c);
    }
    out
}

/// A string holding the given characters.
pub fn string_of(chars: &Vec<char>) -> (s: String)
    ensures
        s@ == chars@,
{
    let mut s = String::new();
    let mut i: usize = 0;
    while i < chars.len()
        invariant
            0 <= i <= chars@.len(),
            s@ == chars@.take(i as int),
        decreases chars@.len() - i,
    {
        push_char(&mut s, chars[i]);
        assert(chars@.take(i + 1) =~= chars@.take(i as int).push(chars@[i as int]));
        i = i + 1;
    }
    assert(chars@.take(chars@.len() as int) =~= chars@);
    s
}

/// Whether two character sequences are equal.
pub fn chars_eq(a: &Vec<char>, b: &Vec<char>) -> (r: bool)
    ensures
        r == (a@ == b@),
{
    if a.len() != b.len() {
        return false;
    }
    let mut i: usize = 0;
    while i < a.len()
        invariant
            0 <= i <= a@.len(),
            a@.len() == b@.len(),
            forall|j: int| 0 <= j < i ==> a@[j] == b@[j],
        decreases a@.len() - i,
    {
        if a[i] != b[i] {
            return false;
        }
        i = i + 1;
    }
    assert(a@ =~= b@);
    true
}

/// Unicode `White_Space`, the characters at which `split_whitespace` splits.
pub open spec fn is_white(c: char) -> bool {
    ||| ('\t' <= c && c <= '\r')
    ||| c == ' '
    ||| c == '\u{85}'
    ||| c == '\u{a0}'
    ||| c == '\u{1680}'
    ||| ('\u{2000}' <= c && c <= '\u{200a}')
    ||| c == '\u{2028}'
    ||| c == '\u{2029}'
    ||| c == '\u{202f}'
    ||| c == '\u{205f}'
    ||| c == '\u{3000}'
}

/// Whether `c` is white space.
pub fn white(c: char) -> (b: bool)
    ensures
        b == is_white(c),
{
    ('\t' <= c && c <= '\r') || c == ' ' || c == '\u{85}' || c == '\u{a0}' || c == '\u{1680}' || (
    '\u{2000}' <= c && c <= '\u{200a}') || c == '\u{2028}' || c == '\u{2029}' || c == '\u{202f}'
        || c == '\u{205f}' || c == '\u{3000}'
}

/// Scanning state of `split_whitespace` after a prefix: the complete tokens
/// and the token being read.
pub open spec fn token_scan(s: Seq<char>) -> (Seq<Seq<char>>, Seq<char>)
    decreases s.len(),
{
    if s.len() == 0 {
        (Seq::empty(), Seq::empty())
    } else {
        let (done, cur) = token_scan(s.drop_last());
        if is_white(s.last()) {
            (if cur.len() > 0 { done.push(cur) } else { done }, Seq::empty())
        } else {
            (done, cur.push(s.last()))
        }
    }
}

/// The maximal runs of non-white characters of `s`, in order.
pub open spec fn split_white(s: Seq<char>) -> Seq<Seq<char>> {
    let (done, cur) = token_scan(s);
    if cur.len() > 0 { done.push(cur) } else { done }
}

/// Scanning state of line splitting after a prefix: the complete lines and
/// the line being read.
pub open spec fn line_scan(s: Seq<char>) -> (Seq<Seq<char>>, Seq<char>)
    decreases s.len(),
{
    if s.len() == 0 {
        (Seq::empty(), Seq::empty())
    } else {
        let (done, cur) = line_scan(s.drop_last());
        if s.last() == '\n' {
            (done.push(cur), Seq::empty())
        } else {
            (done, cur.push(s.last()))
        }
    }
}

/// The pieces of `s` between newline characters (the last piece may be empty).
pub open spec fn split_lines(s: Seq<char>) -> Seq<Seq<char>> {
    let (done, cur) = line_scan(s);
    done.push(cur)
}

/// The words of a line as character sequences.
pub open spec fn words_view(w: Seq<Vec<char>>) -> Seq<Seq<char>> {
    w.map_values(|t: Vec<char>| t@)
}

/// Splits at white space, as `split_whitespace` does.
pub fn split_words(chars: &Vec<char>) -> (words: Vec<Vec<char>>)
    ensures
        words_view(words@) == split_white(chars@),
{
    let ghost s = chars@;
    let mut words: Vec<Vec<char>> = Vec::new();
    let mut cur: Vec<char> = Vec::new();
    let mut i: usize = 0;
    assert(s.take(0) =~= Seq::<char>::empty());
    assert(words_view(words@) =~= Seq::<Seq<char>>::empty());
    while i < chars.len()
        invariant
            0 <= i <= s.len(),
            s == chars@,
            words_view(words@) == token_scan(s.take(i as int)).0,
            cur@ == token_scan(s.take(i as int)).1,
        decreases s.len() - i,
    {
        let c = chars[i];
        let ghost pre = s.take(i as int);
        assert(s.take(i + 1).drop_last() =~= pre);
        assert(s.take(i + 1).last() == c);
        if white(c) {
            let ghost before = words@;
            if cur.len() > 0 {
                words.push(cur);
                cur = Vec::new();
                assert(words_view(words@) =~= words_view(before).push(token_scan(pre).1));
            }
        } else {
            cur.push(c);
        }
        i = i + 1;
    }
    assert(s.take(s.len() as int) =~= s);
    let ghost before = words@;
    if cur.len() > 0 {
        words.push(cur);
        assert(words_view(words@) =~= words_view(before).push(token_scan(s).1));
    }
    words
}

/// Words are not empty, and a text with a non-white character has a word.
pub proof fn lemma_token_scan(s: Seq<char>)
    ensures
        forall|j: int| 0 <= j < token_scan(s).0.len() ==> #[trigger] token_scan(s).0[j].len() > 0,
        (exists|j: int| 0 <= j < s.len() && !is_white(s[j])) ==> token_scan(s).0.len() > 0
            || token_scan(s).1.len() > 0,
    decreases s.len(),
{
    if s.len() > 0 {
        let p = s.drop_last();
        lemma_token_scan(p);
        let (d, c) = token_scan(p);
        let (d2, c2) = token_scan(s);
        assert forall|j: int| 0 <= j < d2.len() implies #[trigger] d2[j].len() > 0 by {
            if j < d.len() {
                assert(d2[j] == d[j]);
            }
        }
        if exists|j: int| 0 <= j < s.len() && !is_white(s[j]) {
            let j = choose|j: int| 0 <= j < s.len() && !is_white(s[j]);
            if j < p.len() {
                assert(p[j] == s[j]);
            }
        }
    }
}

pub proof fn lemma_split_white(s: Seq<char>)
    ensures
        forall|j: int| 0 <= j < split_white(s).len() ==> #[trigger] split_white(s)[j].len() > 0,
        (exists|j: int| 0 <= j < s.len() && !is_white(s[j])) ==> split_white(s).len() > 0,
{
    lemma_token_scan(s);
    let (d, c) = token_scan(s);
    assert forall|j: int| 0 <= j < split_white(s).len() implies #[trigger] split_white(s)[j].len() > 0 by {
        if j < d.len() {
            assert(split_white(s)[j] == d[j]);
        }
    }
}

/// `needle` occurs in `hay` at position `k`.
pub open spec fn occurs_at(hay: Seq<char>, needle: Seq<char>, k: int) -> bool {
    0 <= k && k + needle.len() <= hay.len() && hay.subrange(k, k + needle.len()) == needle
}

/// `needle` occurs somewhere in `hay`, as `str::contains` tests.
pub open spec fn occurs(hay: Seq<char>, needle: Seq<char>) -> bool {
    exists|k: int| occurs_at(hay, needle, k)
}

/// Whether `needle` occurs in `hay`.
#[verifier::loop_isolation(false)]
pub fn text_contains(hay: &Vec<char>, needle: &Vec<char>) -> (r: bool)
    ensures
        r == occurs(hay@, needle@),
{
    if needle.len() == 0 {
        assert(hay@.subrange(0, 0) =~= needle@);
        assert(occurs_at(hay@, needle@, 0));
        return true;
    }
    if needle.len() > hay.len() {
        return false;
    }
    let bound = hay.len() - needle.len() + 1;
    let mut k: usize = 0;
    while k < bound
        invariant
            0 <= k <= bound,
            forall|j: int| 0 <= j < k ==> !occurs_at(hay@, needle@, j),
        decreases bound - k,
    {
        let mut m: usize = 0;
        let mut same = true;
        while m < needle.len()
            invariant
                0 <= m <= needle@.len(),
                k < bound,
                same == (forall|x: int| 0 <= x < m ==> hay@[k + x] == needle@[x]),
            decreases needle@.len() - m,
        {
            if hay[k + m] != needle[m] {
                same = false;
            }
            m = m + 1;
        }
        if same {
            assert(hay@.subrange(k as int, k + needle@.len()) =~= needle@);
            assert(occurs_at(hay@, needle@, k as int));
            return true;
        }
        assert(!occurs_at(hay@, needle@, k as int)) by {
            if occurs_at(hay@, needle@, k as int) {
                let x = choose|x: int| 0 <= x < needle@.len() && hay@[k + x] != needle@[x];
                assert(hay@.subrange(k as int, k + needle@.len())[x] == hay@[k + x]);
            }
        }
        k = k + 1;
    }
    false
}

} // verus!
