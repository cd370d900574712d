//! Character-level text model: whitespace, words, lines, trimming and
//! case folding, each with the executable code that computes it.
use vstd::prelude::*;

verus! {

/// The Unicode `White_Space` property, which is what `char::is_whitespace`
/// tests.
pub open spec fn is_ws(c: char) -> bool {
    ||| ('\u{9}' <= c && c <= '\u{d}')
    ||| c == ' '
    ||| c == '\u{85}'
    ||| c == '\u{a0}'
    ||| c == '\u{1680}'
    ||| ('\u{2000}' <= c && c <= '\u{200a}')
    ||| c == '\u{2028}'
    ||| c == '\u{2029}'
    ||| c == '\u{202f}'
    ||| c == '\u{205f}'
    ||| c == '\u{3000}'
}

pub fn is_whitespace(c: char) -> (b: bool)
    ensures
        b == is_ws(c),
{
    ('\u{9}' <= c && c <= '\u{d}') || c == ' ' || c == '\u{85}' || c == '\u{a0}' || c
        == '\u{1680}' || ('\u{2000}' <= c && c <= '\u{200a}') || c == '\u{2028}' || c
        == '\u{2029}' || c == '\u{202f}' || c == '\u{205f}' || c == '\u{3000}'
}

/// The one-element list holding `w`, or the empty list when `w` is empty.
pub open spec fn nonempty_word(w: Seq<char>) -> Seq<Seq<char>> {
    if w.len() > 0 {
        seq![w]
    } else {
        Seq::empty()
    }
}

/// The whitespace-separated words of `cur + s`, where `cur` is a word
/// already begun (and not yet ended) before `s`.
pub open spec fn words_from(s: Seq<char>, cur: Seq<char>) -> Seq<Seq<char>>
    decreases s.len(),
{
    if s.len() == 0 {
        nonempty_word(cur)
    } else if is_ws(s[0]) {
        nonempty_word(cur) + words_from(s.drop_first(), Seq::empty())
    } else {
        words_from(s.drop_first(), cur.push(s[0]))
    }
}

/// The maximal runs of non-whitespace characters of `s`, in order: what
/// `str::split_whitespace` yields.
pub open spec fn words(s: Seq<char>) -> Seq<Seq<char>> {
    words_from(s, Seq::empty())
}

/// `line` without one trailing `'\r'`, if it has one.
pub open spec fn strip_cr(line: Seq<char>) -> Seq<char> {
    if line.len() > 0 && line.last() == '\r' {
        line.drop_last()
    } else {
        line
    }
}

/// The lines of `cur + s`, where `cur` is a line already begun before `s`.
pub open spec fn lines_from(s: Seq<char>, cur: Seq<char>) -> Seq<Seq<char>>
    decreases s.len(),
{
    if s.len() == 0 {
        nonempty_word(cur)
    } else if s[0] == '\n' {
        seq![strip_cr(cur)] + lines_from(s.drop_first(), Seq::empty())
    } else {
        lines_from(s.drop_first(), cur.push(s[0]))
    }
}

/// What `str::lines` yields: the text split at each `'\n'`, a `'\r'`
/// right before that `'\n'` dropped, and no empty last line after a final
/// `'\n'`.
pub open spec fn lines(s: Seq<char>) -> Seq<Seq<char>> {
    lines_from(s, Seq::empty())
}

/// The lines joined with `'\n'` between them (`[..].join("\n")`).
pub open spec fn join_lines(ls: Seq<Seq<char>>) -> Seq<char>
    decreases ls.len(),
{
    if ls.len() == 0 {
        Seq::empty()
    } else if ls.len() == 1 {
        ls[0]
    } else {
        join_lines(ls.drop_last()) + seq!['\n'] + ls.last()
    }
}

/// Every character is whitespace (so `trim()` of it is empty).
pub open spec fn all_ws(s: Seq<char>) -> bool {
    forall|i: int| 0 <= i < s.len() ==> is_ws(#[trigger] s[i])
}

pub open spec fn trim_start(s: Seq<char>) -> Seq<char>
    decreases s.len(),
{
    if s.len() > 0 && is_ws(s[0]) {
        trim_start(s.drop_first())
    } else {
        s
    }
}

pub open spec fn trim_end(s: Seq<char>) -> Seq<char>
    decreases s.len(),
{
    if s.len() > 0 && is_ws(s.last()) {
        trim_end(s.drop_last())
    } else {
        s
    }
}

/// `str::trim`: leading and trailing whitespace removed.
pub open spec fn trim(s: Seq<char>) -> Seq<char> {
    trim_end(trim_start(s))
}

/// `ls` with its trailing all-whitespace lines removed.
pub open spec fn drop_blank_tail(ls: Seq<Seq<char>>) -> Seq<Seq<char>>
    decreases ls.len(),
{
    if ls.len() > 0 && all_ws(ls.last()) {
        drop_blank_tail(ls.drop_last())
    } else {
        ls
    }
}

/// Trailing blank (or whitespace-only) lines trimmed off, the remaining
/// lines joined with `'\n'` (the entry terminator normalization).
pub open spec fn normalized(body: Seq<char>) -> Seq<char> {
    join_lines(drop_blank_tail(lines(body)))
}

/// `needle` occurs in `hay` starting at index `i`.
pub open spec fn occurs_at(hay: Seq<char>, needle: Seq<char>, i: int) -> bool {
    0 <= i && i + needle.len() <= hay.len() && hay.subrange(i, i + needle.len()) == needle
}

/// `str::contains` with a string pattern.
pub open spec fn contains(hay: Seq<char>, needle: Seq<char>) -> bool {
    exists|i: int| occurs_at(hay, needle, i)
}

pub open spec fn ascii_lower_char(c: char) -> char {
    if 'A' <= c && c <= 'Z' {
        ((c as u32) + 32) as char
    } else {
        c
    }
}

/// `str::to_ascii_lowercase`: ASCII letters lowered, everything else kept.
pub open spec fn ascii_lower(s: Seq<char>) -> Seq<char> {
    Seq::new(s.len(), |i: int| ascii_lower_char(s[i]))
}

/// What `str::to_lowercase` returns for a string (full Unicode lowercase
/// mapping, which is not character by character).
pub uninterp spec fn unicode_lower(s: Seq<char>) -> Seq<char>;

/// Every character is ASCII.
pub open spec fn is_ascii_text(s: Seq<char>) -> bool {
    forall|i: int| 0 <= i < s.len() ==> (#[trigger] s[i] as u32) < 128
}

/// `c` with an ASCII small letter replaced by its capital.
pub open spec fn ascii_upper_char(c: char) -> char {
    if 'a' <= c && c <= 'z' {
        ((c as u32) - 32) as char
    } else {
        c
    }
}

/// `str::to_ascii_uppercase`: ASCII letters raised, everything else kept.
pub open spec fn ascii_upper(s: Seq<char>) -> Seq<char> {
    Seq::new(s.len(), |i: int| ascii_upper_char(s[i]))
}

/// Raising the ASCII letters of ASCII text keeps it ASCII and changes
/// nothing once the text is lowered again.
pub proof fn lemma_ascii_upper_then_lower(s: Seq<char>)
    requires
        is_ascii_text(s),
    ensures
        is_ascii_text(ascii_upper(s)),
        ascii_lower(ascii_upper(s)) == ascii_lower(s),
{
    let u = ascii_upper(s);
    assert forall|i: int| 0 <= i < u.len() implies (#[trigger] u[i] as u32) < 128 && ascii_lower_char(u[i])
        == ascii_lower_char(s[i]) by {
        let c = s[i];
        assert((c as u32) < 128);
        if 'a' <= c && c <= 'z' {
            let x: u32 = ((c as u32) - 32) as u32;
            assert(65 <= x <= 90);
            assert(((x as char) as u32) == x);
        }
    }
    assert(ascii_lower(u) =~= ascii_lower(s));
}

/// What `str::to_lowercase` gives for `s`: for text that is all ASCII,
/// each ASCII capital letter replaced by its small letter; for other
/// text, the full Unicode lowercase mapping.
pub open spec fn lowered(s: Seq<char>) -> Seq<char> {
    if is_ascii_text(s) {
        ascii_lower(s)
    } else {
        unicode_lower(s)
    }
}

/// `str::to_lowercase`. Claims that its result is a function of the
/// characters of `s`, named `unicode_lower`, and that for text that is all
/// ASCII it is the ASCII lowercasing (the Unicode lowercase mapping of an
/// ASCII character is its ASCII lowercase); nothing is said of other text.
#[verifier::external_body]
pub(crate) fn to_lowercase(s: &str) -> (res: String)
    ensures
        res@ == unicode_lower(s@),
        is_ascii_text(s@) ==> res@ == ascii_lower(s@),
{
    s.to_lowercase()
}

/// `String::push`: appends one character.
#[verifier::external_body]
pub(crate) fn push_char(s: &mut String, c: char)
    ensures
        final(s)@ == old(s)@.push(c),
{
    s.push(c);
}

/// The characters of `s`, in order.
pub fn to_chars(s: &str) -> (out: Vec<char>)
    ensures
        out@ == s@,
{
    let mut out: Vec<char> = Vec::new();
    for c in it: s.chars()
        invariant
            out@ == it.seq().take(it.index() as int),
    {
        out.push(c);
    }
    out
}

/// A string holding exactly the characters `cs`.
pub fn from_chars(cs: &[char]) -> (out: String)
    ensures
        out@ == cs@,
{
    let mut out = String::new();
    let mut i: usize = 0;
    while i < cs.len()
        invariant
            i <= cs.len(),
            out@ == cs@.take(i as int),
        decreases cs.len() - i,
    {
        push_char(&mut out, cs[i]);
        i = i + 1;
        assert(out@ =~= cs@.take(i as int));
    }
    assert(cs@.take(cs@.len() as int) =~= cs@);
    out
}

/// Appends all of `cs` to `v`.
pub fn extend_chars(v: &mut Vec<char>, cs: &[char])
    ensures
        final(v)@ == old(v)@ + cs@,
{
    let mut i: usize = 0;
    while i < cs.len()
        invariant
            i <= cs.len(),
            v@ == old(v)@ + cs@.take(i as int),
        decreases cs.len() - i,
    {
        v.push(cs[i]);
        i = i + 1;
        assert(v@ =~= old(v)@ + cs@.take(i as int));
    }
    assert(cs@.take(cs@.len() as int) =~= cs@);
}

/// Appends all the characters of `s` to `v`.
pub fn extend_str(v: &mut Vec<char>, s: &str)
    ensures
        final(v)@ == old(v)@ + s@,
{
    let cs = to_chars(s);
    extend_chars(v, cs.as_slice());
}

proof fn lemma_words_from_step(s: Seq<char>, cur: Seq<char>, i: int)
    requires
        0 <= i < s.len(),
    ensures
        is_ws(s[i]) ==> words_from(s.skip(i), cur) == nonempty_word(cur) + words_from(
            s.skip(i + 1),
            Seq::empty(),
        ),
        !is_ws(s[i]) ==> words_from(s.skip(i), cur) == words_from(s.skip(i + 1), cur.push(s[i])),
{
    assert(s.skip(i).drop_first() =~= s.skip(i + 1));
    assert(s.skip(i)[0] == s[i]);
}

/// `str::split_whitespace`, on characters.
pub fn split_whitespace(s: &[char]) -> (out: Vec<Vec<char>>)
    ensures
        out@.len() == words(s@).len(),
        forall|k: int| 0 <= k < out@.len() ==> #[trigger] out@[k]@ == words(s@)[k],
{
    let mut out: Vec<Vec<char>> = Vec::new();
    let mut cur: Vec<char> = Vec::new();
    let ghost mut done: Seq<Seq<char>> = Seq::empty();
    let mut i: usize = 0;
    assert(s@.skip(0) =~= s@);
    while i < s.len()
        invariant
            i <= s.len(),
            out@.len() == done.len(),
            forall|k: int| 0 <= k < out@.len() ==> #[trigger] out@[k]@ == done[k],
            words(s@) == done + words_from(s@.skip(i as int), cur@),
        decreases s.len() - i,
    {
        proof {
            lemma_words_from_step(s@, cur@, i as int);
        }
        let ghost done0 = done;
        let ghost cur0 = cur@;
        if is_whitespace(s[i]) {
            if cur.len() > 0 {
                proof {
                    done = done.push(cur@);
                }
                out.push(cur);
                cur = Vec::new();
            }
            assert(cur@ =~= Seq::<char>::empty());
            assert(done0 + nonempty_word(cur0) =~= done);
            assert(done0 + (nonempty_word(cur0) + words_from(s@.skip(i + 1), Seq::empty()))
                =~= done + words_from(s@.skip(i + 1), cur@));
        } else {
            cur.push(s[i]);
        }
        i = i + 1;
    }
    assert(s@.skip(s@.len() as int) =~= Seq::<char>::empty());
    if cur.len() > 0 {
        proof {
            done = done.push(cur@);
        }
        out.push(cur);
    }
    assert(words(s@) =~= done);
    out
}

proof fn lemma_lines_from_step(s: Seq<char>, cur: Seq<char>, i: int)
    requires
        0 <= i < s.len(),
    ensures
        s[i] == '\n' ==> lines_from(s.skip(i), cur) == seq![strip_cr(cur)] + lines_from(
            s.skip(i + 1),
            Seq::empty(),
        ),
        s[i] != '\n' ==> lines_from(s.skip(i), cur) == lines_from(s.skip(i + 1), cur.push(s[i])),
{
    assert(s.skip(i).drop_first() =~= s.skip(i + 1));
    assert(s.skip(i)[0] == s[i]);
}

/// `line` without one trailing `'\r'`.
fn strip_cr_vec(line: Vec<char>) -> (out: Vec<char>)
    ensures
        out@ == strip_cr(line@),
{
    let mut line = line;
    if line.len() > 0 && line[line.len() - 1] == '\r' {
        line.pop();
    }
    line
}

/// `str::lines`, on characters.
pub fn split_lines(s: &[char]) -> (out: Vec<Vec<char>>)
    ensures
        out@.len() == lines(s@).len(),
        forall|k: int| 0 <= k < out@.len() ==> #[trigger] out@[k]@ == lines(s@)[k],
{
    let mut out: Vec<Vec<char>> = Vec::new();
    let mut cur: Vec<char> = Vec::new();
    let ghost mut done: Seq<Seq<char>> = Seq::empty();
    let mut i: usize = 0;
    assert(s@.skip(0) =~= s@);
    while i < s.len()
        invariant
            i <= s.len(),
            out@.len() == done.len(),
            forall|k: int| 0 <= k < out@.len() ==> #[trigger] out@[k]@ == done[k],
            lines(s@) == done + lines_from(s@.skip(i as int), cur@),
        decreases s.len() - i,
    {
        proof {
            lemma_lines_from_step(s@, cur@, i as int);
        }
        let ghost done0 = done;
        let ghost cur0 = cur@;
        if s[i] == '\n' {
            let line = strip_cr_vec(cur);
            proof {
                done = done.push(line@);
            }
            out.push(line);
            cur = Vec::new();
            assert(cur@ =~= Seq::<char>::empty());
            assert(done0 + (seq![strip_cr(cur0)] + lines_from(s@.skip(i + 1), Seq::empty()))
                =~= done + lines_from(s@.skip(i + 1), cur@));
        } else {
            cur.push(s[i]);
        }
        i = i + 1;
    }
    assert(s@.skip(s@.len() as int) =~= Seq::<char>::empty());
    if cur.len() > 0 {
        proof {
            done = done.push(cur@);
        }
        out.push(cur);
    } else {
        assert(done + nonempty_word(cur@) =~= done);
    }
    assert(lines(s@) =~= done);
    out
}

/// The views of a list of character vectors.
pub open spec fn views(v: Seq<Vec<char>>) -> Seq<Seq<char>> {
    Seq::new(v.len(), |k: int| v[k]@)
}

/// `[..].join("\n")` over the first `n` lines.
pub fn join_lines_vec(ls: &[Vec<char>], n: usize) -> (out: Vec<char>)
    requires
        n <= ls@.len(),
    ensures
        out@ == join_lines(views(ls@).take(n as int)),
{
    let mut out: Vec<char> = Vec::new();
    let mut i: usize = 0;
    while i < n
        invariant
            i <= n <= ls@.len(),
            out@ == join_lines(views(ls@).take(i as int)),
        decreases n - i,
    {
        let ghost prev = views(ls@).take(i as int);
        if i > 0 {
            out.push('\n');
        }
        extend_chars(&mut out, ls[i].as_slice());
        proof {
            let next = views(ls@).take(i + 1);
            assert(next.drop_last() =~= prev);
            if i == 0 {
                assert(out@ =~= next[0]);
            }
        }
        i = i + 1;
    }
    out
}

proof fn lemma_drop_blank_tail_take(ls: Seq<Seq<char>>, n: int)
    requires
        0 <= n <= ls.len(),
        forall|k: int| n <= k < ls.len() ==> all_ws(#[trigger] ls[k]),
        n == 0 || !all_ws(ls[n - 1]),
    ensures
        drop_blank_tail(ls) == ls.take(n),
    decreases ls.len(),
{
    if ls.len() > n {
        assert(all_ws(ls[ls.len() - 1]));
        let d = ls.drop_last();
        assert forall|k: int| n <= k < d.len() implies all_ws(#[trigger] d[k]) by {
            assert(d[k] == ls[k]);
        }
        if n > 0 {
            assert(d[n - 1] == ls[n - 1]);
        }
        lemma_drop_blank_tail_take(d, n);
        assert(d.take(n) =~= ls.take(n));
    } else {
        assert(ls.take(n) =~= ls);
        if ls.len() > 0 {
            assert(ls.last() == ls[n - 1]);
        }
    }
}

fn is_all_ws(s: &[char]) -> (b: bool)
    ensures
        b == all_ws(s@),
{
    let mut i: usize = 0;
    while i < s.len()
        invariant
            i <= s.len(),
            forall|k: int| 0 <= k < i ==> is_ws(#[trigger] s@[k]),
        decreases s.len() - i,
    {
        if !is_whitespace(s[i]) {
            return false;
        }
        i = i + 1;
    }
    true
}

/// Trims trailing blank (or whitespace-only) lines from `body` and joins
/// the rest with `'\n'` (the terminator normalization of an entry body).
pub fn normalize_trailing_blank_lines(body: &[char]) -> (out: Vec<char>)
    ensures
        out@ == normalized(body@),
{
    let ls = split_lines(body);
    let mut n: usize = ls.len();
    let ghost lv = views(ls@);
    assert(lv =~= lines(body@));
    while n > 0 && is_all_ws(ls[n - 1].as_slice())
        invariant
            n <= ls@.len(),
            lv == views(ls@),
            forall|k: int| n <= k < lv.len() ==> all_ws(#[trigger] lv[k]),
        decreases n,
    {
        n = n - 1;
    }
    proof {
        if n > 0 {
            assert(lv[n - 1] == ls@[n - 1]@);
        }
        lemma_drop_blank_tail_take(lv, n as int);
    }
    join_lines_vec(ls.as_slice(), n)
}

/// Index of the first non-whitespace character (or the length).
pub open spec fn first_non_ws(s: Seq<char>, i: int) -> bool {
    &&& 0 <= i <= s.len()
    &&& forall|k: int| 0 <= k < i ==> is_ws(#[trigger] s[k])
    &&& i < s.len() ==> !is_ws(s[i])
}

proof fn lemma_trim_start(s: Seq<char>, i: int)
    requires
        first_non_ws(s, i),
    ensures
        trim_start(s) == s.skip(i),
    decreases s.len(),
{
    if i > 0 {
        let d = s.drop_first();
        assert forall|k: int| 0 <= k < i - 1 implies is_ws(#[trigger] d[k]) by {
            assert(d[k] == s[k + 1]);
        }
        if i - 1 < d.len() {
            assert(d[i - 1] == s[i]);
        }
        lemma_trim_start(d, i - 1);
        assert(d.skip(i - 1) =~= s.skip(i));
    } else {
        assert(s.skip(0) =~= s);
    }
}

proof fn lemma_trim_end(s: Seq<char>, j: int)
    requires
        0 <= j <= s.len(),
        forall|k: int| j <= k < s.len() ==> is_ws(#[trigger] s[k]),
        j == 0 || !is_ws(s[j - 1]),
    ensures
        trim_end(s) == s.take(j),
    decreases s.len(),
{
    if j < s.len() {
        let d = s.drop_last();
        assert(is_ws(s[s.len() - 1]));
        assert forall|k: int| j <= k < d.len() implies is_ws(#[trigger] d[k]) by {
            assert(d[k] == s[k]);
        }
        if j > 0 {
            assert(d[j - 1] == s[j - 1]);
        }
        lemma_trim_end(d, j);
        assert(d.take(j) =~= s.take(j));
    } else {
        assert(s.take(j) =~= s);
        if s.len() > 0 {
            assert(s.last() == s[j - 1]);
        }
    }
}

/// `str::trim`, on characters.
pub fn trim_chars(s: &[char]) -> (out: Vec<char>)
    ensures
        out@ == trim(s@),
{
    let mut a: usize = 0;
    while a < s.len() && is_whitespace(s[a])
        invariant
            a <= s.len(),
            forall|k: int| 0 <= k < a ==> is_ws(#[trigger] s@[k]),
        decreases s.len() - a,
    {
        a = a + 1;
    }
    proof {
        lemma_trim_start(s@, a as int);
    }
    let mut b: usize = s.len();
    while b > a && is_whitespace(s[b - 1])
        invariant
            a <= b <= s.len(),
            forall|k: int| b <= k < s.len() ==> is_ws(#[trigger] s@[k]),
        decreases b,
    {
        b = b - 1;
    }
    let ghost t = s@.skip(a as int);
    proof {
        assert forall|k: int| b - a <= k < t.len() implies is_ws(#[trigger] t[k]) by {
            assert(t[k] == s@[k + a]);
        }
        if b > a {
            assert(t[b - a - 1] == s@[b - 1]);
        }
        lemma_trim_end(t, b - a);
        assert(t.take(b - a) =~= s@.subrange(a as int, b as int));
    }
    let mut out: Vec<char> = Vec::new();
    let mut i: usize = a;
    while i < b
        invariant
            a <= i <= b <= s.len(),
            out@ == s@.subrange(a as int, i as int),
        decreases b - i,
    {
        out.push(s[i]);
        i = i + 1;
        assert(out@ =~= s@.subrange(a as int, i as int));
    }
    out
}

/// Whether `needle` occurs in `hay` at `i` (`i + needle.len() <= hay.len()`).
pub fn matches_at(hay: &[char], needle: &[char], i: usize) -> (b: bool)
    requires
        i + needle@.len() <= hay@.len(),
    ensures
        b == occurs_at(hay@, needle@, i as int),
{
    let hlen = hay.len();
    let mut k: usize = 0;
    while k < needle.len()
        invariant
            k <= needle@.len(),
            i + needle@.len() <= hay@.len(),
            hlen == hay@.len(),
            forall|j: int| 0 <= j < k ==> hay@[i + j] == needle@[j],
        decreases needle.len() - k,
    {
        if hay[i + k] != needle[k] {
            assert(hay@.subrange(i as int, i + needle@.len())[k as int] != needle@[k as int]);
            return false;
        }
        k = k + 1;
    }
    assert(hay@.subrange(i as int, i + needle@.len()) =~= needle@);
    true
}

/// `str::contains` with a string pattern, on characters.
pub fn contains_chars(hay: &[char], needle: &[char]) -> (b: bool)
    ensures
        b == contains(hay@, needle@),
{
    if needle.len() > hay.len() {
        return false;
    }
    let last = hay.len() - needle.len();
    let mut i: usize = 0;
    loop
        invariant
            last + needle@.len() == hay@.len(),
            i <= last,
            forall|j: int| 0 <= j < i ==> !occurs_at(hay@, needle@, j),
        decreases last - i,
    {
        if matches_at(hay, needle, i) {
            return true;
        }
        if i == last {
            assert forall|j: int| !occurs_at(hay@, needle@, j) by {
                if occurs_at(hay@, needle@, j) {
                    assert(j <= last);
                }
            }
            return false;
        }
        i = i + 1;
    }
}

/// `str::to_ascii_lowercase`, on characters.
pub fn ascii_lowercase(s: &[char]) -> (out: Vec<char>)
    ensures
        out@ == ascii_lower(s@),
{
    let mut out: Vec<char> = Vec::new();
    let mut i: usize = 0;
    while i < s.len()
        invariant
            i <= s.len(),
            out@ == ascii_lower(s@).take(i as int),
        decreases s.len() - i,
    {
        let c = s[i];
        let l = if 'A' <= c && c <= 'Z' {
            ((c as u8) + 32) as char
        } else {
            c
        };
        out.push(l);
        i = i + 1;
        assert(out@ =~= ascii_lower(s@).take(i as int));
    }
    assert(ascii_lower(s@).take(s@.len() as int) =~= ascii_lower(s@));
    out
}

/// The pieces of `cur + s` between occurrences of `sep`, where `cur` is a
/// piece already begun before `s`.
pub open spec fn split_from(s: Seq<char>, sep: char, cur: Seq<char>) -> Seq<Seq<char>>
    decreases s.len(),
{
    if s.len() == 0 {
        seq![cur]
    } else if s[0] == sep {
        seq![cur] + split_from(s.drop_first(), sep, Seq::empty())
    } else {
        split_from(s.drop_first(), sep, cur.push(s[0]))
    }
}

/// `str::split` with a character pattern: the pieces between occurrences of
/// `sep`, empty pieces included (so there is always at least one).
pub open spec fn split_on(s: Seq<char>, sep: char) -> Seq<Seq<char>> {
    split_from(s, sep, Seq::empty())
}

proof fn lemma_split_from_step(s: Seq<char>, sep: char, cur: Seq<char>, i: int)
    requires
        0 <= i < s.len(),
    ensures
        s[i] == sep ==> split_from(s.skip(i), sep, cur) == seq![cur] + split_from(
            s.skip(i + 1),
            sep,
            Seq::empty(),
        ),
        s[i] != sep ==> split_from(s.skip(i), sep, cur) == split_from(
            s.skip(i + 1),
            sep,
            cur.push(s[i]),
        ),
{
    assert(s.skip(i).drop_first() =~= s.skip(i + 1));
    assert(s.skip(i)[0] == s[i]);
}

/// `str::split(sep)`, on characters.
pub fn split_chars(s: &[char], sep: char) -> (out: Vec<Vec<char>>)
    ensures
        out@.len() == split_on(s@, sep).len(),
        forall|k: int| 0 <= k < out@.len() ==> #[trigger] out@[k]@ == split_on(s@, sep)[k],
{
    let mut out: Vec<Vec<char>> = Vec::new();
    let mut cur: Vec<char> = Vec::new();
    let ghost mut done: Seq<Seq<char>> = Seq::empty();
    let mut i: usize = 0;
    assert(s@.skip(0) =~= s@);
    while i < s.len()
        invariant
            i <= s.len(),
            out@.len() == done.len(),
            forall|k: int| 0 <= k < out@.len() ==> #[trigger] out@[k]@ == done[k],
            split_on(s@, sep) == done + split_from(s@.skip(i as int), sep, cur@),
        decreases s.len() - i,
    {
        proof {
            lemma_split_from_step(s@, sep, cur@, i as int);
        }
        let ghost done0 = done;
        let ghost cur0 = cur@;
        if s[i] == sep {
            proof {
                done = done.push(cur@);
            }
            out.push(cur);
            cur = Vec::new();
            assert(cur@ =~= Seq::<char>::empty());
            assert(done0 + (seq![cur0] + split_from(s@.skip(i + 1), sep, Seq::empty())) =~= done
                + split_from(s@.skip(i + 1), sep, cur@));
        } else {
            cur.push(s[i]);
        }
        i = i + 1;
    }
    assert(s@.skip(s@.len() as int) =~= Seq::<char>::empty());
    proof {
        done = done.push(cur@);
    }
    out.push(cur);
    assert(split_on(s@, sep) =~= done);
    out
}

pub open spec fn is_digit(c: char) -> bool {
    '0' <= c && c <= '9'
}

pub open spec fn all_digits(s: Seq<char>) -> bool {
    forall|i: int| 0 <= i < s.len() ==> is_digit(#[trigger] s[i])
}

/// The number written by the decimal digits `s`.
pub open spec fn decimal_value(s: Seq<char>) -> nat
    decreases s.len(),
{
    if s.len() == 0 {
        0
    } else {
        decimal_value(s.drop_last()) * 10 + ((s.last() as int - 48) as nat)
    }
}

/// `s` parsed as a plain non-negative integer of at most `max`: one or more
/// ASCII digits, no sign, no separators.
pub open spec fn digits_value(s: Seq<char>, max: nat) -> Option<nat> {
    if s.len() > 0 && all_digits(s) && decimal_value(s) <= max {
        Some(decimal_value(s))
    } else {
        None
    }
}

proof fn lemma_decimal_value_prefix(s: Seq<char>, i: int)
    requires
        0 <= i <= s.len(),
        all_digits(s),
    ensures
        decimal_value(s.take(i)) <= decimal_value(s),
    decreases s.len() - i,
{
    if i < s.len() {
        lemma_decimal_value_prefix(s, i + 1);
        assert(s.take(i + 1).drop_last() =~= s.take(i));
        assert(is_digit(s[i]));
    } else {
        assert(s.take(i) =~= s);
    }
}

/// Parses a run of ASCII digits as an integer of at most `max`, rejecting
/// anything else (empty text, any non-digit, or a value above `max`).
pub fn parse_digits_up_to(s: &[char], max: u64) -> (res: Option<u64>)
    ensures
        res matches Some(v) ==> digits_value(s@, max as nat) == Some(v as nat),
        res is None ==> digits_value(s@, max as nat) is None,
{
    if s.len() == 0 {
        return None;
    }
    let mut i: usize = 0;
    while i < s.len()
        invariant
            i <= s.len(),
            forall|k: int| 0 <= k < i ==> is_digit(#[trigger] s@[k]),
        decreases s.len() - i,
    {
        if !('0' <= s[i] && s[i] <= '9') {
            return None;
        }
        i = i + 1;
    }
    let mut acc: u64 = 0;
    let mut j: usize = 0;
    assert(s@.take(0) =~= Seq::<char>::empty());
    while j < s.len()
        invariant
            j <= s.len(),
            all_digits(s@),
            acc as nat == decimal_value(s@.take(j as int)),
            acc <= max,
        decreases s.len() - j,
    {
        let d = (s[j] as u32 - 48) as u64;
        assert(s@.take(j + 1).drop_last() =~= s@.take(j as int));
        assert(is_digit(s@[j as int]));
        if d > max || acc > (max - d) / 10 {
            proof {
                assert(acc * 10 + d > max) by (nonlinear_arith)
                    requires
                        d > max || acc > (max - d) / 10,
                        d <= max || d > max,
                        acc >= 0,
                ;
                lemma_decimal_value_prefix(s@, j + 1);
            }
            return None;
        }
        assert(acc * 10 + d <= max) by (nonlinear_arith)
            requires
                acc <= (max - d) / 10,
                d <= max,
        ;
        acc = acc * 10 + d;
        j = j + 1;
    }
    assert(s@.take(s@.len() as int) =~= s@);
    Some(acc)
}

/// The decimal digit character for `d < 10`.
pub open spec fn digit_char(d: nat) -> char {
    ((d + 48) as u32) as char
}

/// `n` written in decimal with no padding (what `{}` prints for an integer).
pub open spec fn decimal(n: nat) -> Seq<char>
    decreases n,
{
    if n < 10 {
        seq![digit_char(n)]
    } else {
        decimal(n / 10).push(digit_char(n % 10))
    }
}

/// Appends the decimal digits of `n` to `out`.
pub fn push_decimal(out: &mut Vec<char>, n: u64)
    ensures
        final(out)@ == old(out)@ + decimal(n as nat),
    decreases n,
{
    if n < 10 {
        out.push(((n as u8) + 48) as char);
        assert(decimal(n as nat) =~= seq![digit_char(n as nat)]);
    } else {
        push_decimal(out, n / 10);
        let d = n % 10;
        out.push(((d as u8) + 48) as char);
        assert(out@ =~= old(out)@ + decimal(n as nat));
    }
}

/// Whether two character sequences are equal.
pub fn chars_eq(a: &[char], b: &[char]) -> (r: bool)
    ensures
        r == (a@ == b@),
{
    if a.len() != b.len() {
        return false;
    }
    let mut i: usize = 0;
    while i < a.len()
        invariant
            i <= a@.len(),
            a@.len() == b@.len(),
            forall|k: int| 0 <= k < i ==> a@[k] == b@[k],
        decreases a.len() - i,
    {
        if a[i] != b[i] {
            return false;
        }
        i = i + 1;
    }
    assert(a@ =~= b@);
    true
}


/// No line break in `s`.
pub open spec fn no_newline(s: Seq<char>) -> bool {
    forall|i: int| 0 <= i < s.len() ==> s[i] != '\n'
}

/// `s` ends with a carriage return.
pub open spec fn ends_with_cr(s: Seq<char>) -> bool {
    s.len() > 0 && s.last() == '\r'
}

/// A line `x` followed by a line break ends the line begun by `c`.
pub proof fn lemma_lines_from_line(x: Seq<char>, y: Seq<char>, c: Seq<char>)
    requires
        no_newline(x),
    ensures
        lines_from(x + seq!['\n'] + y, c) == seq![strip_cr(c + x)] + lines_from(y, Seq::empty()),
    decreases x.len(),
{
    let s = x + seq!['\n'] + y;
    if x.len() == 0 {
        assert(s.drop_first() =~= y);
        assert(c + x =~= c);
    } else {
        assert(s[0] == x[0]);
        assert(s.drop_first() =~= x.drop_first() + seq!['\n'] + y);
        lemma_lines_from_line(x.drop_first(), y, c.push(x[0]));
        assert(c.push(x[0]) + x.drop_first() =~= c + x);
    }
}

/// Text without a line break is the last line.
pub proof fn lemma_lines_from_last(x: Seq<char>, c: Seq<char>)
    requires
        no_newline(x),
    ensures
        lines_from(x, c) == nonempty_word(c + x),
    decreases x.len(),
{
    if x.len() == 0 {
        assert(c + x =~= c);
    } else {
        lemma_lines_from_last(x.drop_first(), c.push(x[0]));
        assert(c.push(x[0]) + x.drop_first() =~= c + x);
    }
}

/// Joining splits off the first line.
pub proof fn lemma_join_lines_front(ls: Seq<Seq<char>>)
    requires
        ls.len() >= 2,
    ensures
        join_lines(ls) == ls[0] + seq!['\n'] + join_lines(ls.drop_first()),
    decreases ls.len(),
{
    let d = ls.drop_last();
    let r = ls.drop_first();
    assert(join_lines(ls) == join_lines(d) + seq!['\n'] + ls.last());
    if ls.len() > 2 {
        lemma_join_lines_front(d);
        assert(d.drop_first() =~= r.drop_last());
        assert(r.last() == ls.last());
        assert(join_lines(r) == join_lines(r.drop_last()) + seq!['\n'] + r.last());
        assert(d[0] == ls[0]);
        assert(join_lines(ls) =~= ls[0] + seq!['\n'] + join_lines(r));
    } else {
        assert(d =~= seq![ls[0]]);
        assert(r =~= seq![ls[1]]);
        assert(join_lines(d) == ls[0]);
        assert(join_lines(r) == ls[1]);
    }
}

/// Joining at any inner position.
pub proof fn lemma_join_lines_split(ls: Seq<Seq<char>>, j: int)
    requires
        0 < j < ls.len(),
    ensures
        join_lines(ls) == join_lines(ls.take(j)) + seq!['\n'] + join_lines(ls.skip(j)),
    decreases ls.len(),
{
    if j == ls.len() - 1 {
        assert(ls.take(j) =~= ls.drop_last());
        assert(ls.skip(j) =~= seq![ls.last()]);
    } else {
        let d = ls.drop_last();
        lemma_join_lines_split(d, j);
        assert(d.take(j) =~= ls.take(j));
        assert(ls.skip(j).drop_last() =~= d.skip(j));
        assert(ls.skip(j).last() == ls.last());
    }
}

/// Splitting joined lines gives them back, when none holds a line break,
/// none but the last ends in a carriage return, and the last is not empty.
pub proof fn lemma_lines_of_join(ls: Seq<Seq<char>>)
    requires
        ls.len() > 0 ==> ls.last().len() > 0,
        forall|k: int| 0 <= k < ls.len() ==> no_newline(#[trigger] ls[k]),
        forall|k: int| 0 <= k < ls.len() - 1 ==> !ends_with_cr(#[trigger] ls[k]),
    ensures
        lines(join_lines(ls)) == ls,
    decreases ls.len(),
{
    if ls.len() == 1 {
        lemma_lines_from_last(ls[0], Seq::empty());
        assert(Seq::<char>::empty() + ls[0] =~= ls[0]);
        assert(seq![ls[0]] =~= ls);
    } else if ls.len() >= 2 {
        lemma_join_lines_front(ls);
        let r = ls.drop_first();
        assert forall|k: int| 0 <= k < r.len() implies no_newline(#[trigger] r[k]) by {
            assert(r[k] == ls[k + 1]);
        }
        assert forall|k: int| 0 <= k < r.len() - 1 implies !ends_with_cr(#[trigger] r[k]) by {
            assert(r[k] == ls[k + 1]);
        }
        lemma_lines_of_join(r);
        assert(no_newline(ls[0]));
        lemma_lines_from_line(ls[0], join_lines(r), Seq::empty());
        assert(Seq::<char>::empty() + ls[0] =~= ls[0]);
        assert(!ends_with_cr(ls[0]));
        assert(seq![ls[0]] + r =~= ls);
    } else {
        assert(ls =~= Seq::<Seq<char>>::empty());
    }
}

/// No line of a text holds a line break.
pub proof fn lemma_lines_from_no_newline(s: Seq<char>, c: Seq<char>)
    requires
        no_newline(c),
    ensures
        forall|k: int|
            0 <= k < lines_from(s, c).len() ==> no_newline(#[trigger] lines_from(s, c)[k]),
    decreases s.len(),
{
    if s.len() == 0 {
        if c.len() > 0 {
            assert(lines_from(s, c) =~= seq![c]);
            assert(lines_from(s, c)[0] == c);
        } else {
            assert(lines_from(s, c).len() == 0);
        }
    } else if s[0] == '\n' {
        lemma_lines_from_no_newline(s.drop_first(), Seq::empty());
        let rest = lines_from(s.drop_first(), Seq::empty());
        assert(lines_from(s, c) == seq![strip_cr(c)] + rest);
        assert forall|k: int|
            0 <= k < lines_from(s, c).len() implies no_newline(#[trigger] lines_from(s, c)[k]) by {
            if k > 0 {
                assert(lines_from(s, c)[k] == rest[k - 1]);
            } else {
                let l = strip_cr(c);
                assert(lines_from(s, c)[k] == l);
                assert forall|i: int| 0 <= i < l.len() implies l[i] != '\n' by {
                    assert(l[i] == c[i]);
                }
            }
        }
    } else {
        assert(no_newline(c.push(s[0]))) by {
            assert forall|i: int| 0 <= i < c.len() + 1 implies c.push(s[0])[i] != '\n' by {
                if i < c.len() {
                    assert(c.push(s[0])[i] == c[i]);
                }
            }
        }
        lemma_lines_from_no_newline(s.drop_first(), c.push(s[0]));
        assert(lines_from(s, c) == lines_from(s.drop_first(), c.push(s[0])));
    }
}

/// What `drop_blank_tail` keeps is a prefix that is empty or ends with a
/// line that is not blank.
pub proof fn lemma_drop_blank_tail(ls: Seq<Seq<char>>)
    ensures
        drop_blank_tail(ls).len() <= ls.len(),
        drop_blank_tail(ls) == ls.take(drop_blank_tail(ls).len() as int),
        drop_blank_tail(ls).len() > 0 ==> !all_ws(drop_blank_tail(ls).last()),
    decreases ls.len(),
{
    if ls.len() > 0 && all_ws(ls.last()) {
        let d = ls.drop_last();
        lemma_drop_blank_tail(d);
        let n = drop_blank_tail(d).len() as int;
        assert(d.take(n) =~= ls.take(n));
    } else {
        assert(ls.take(ls.len() as int) =~= ls);
    }
}

/// Normalized text is already normalized, and its lines are those
/// `normalized` joined, when no line of it ends in a carriage return
/// before a line break.
pub proof fn lemma_normalized_lines(b: Seq<char>)
    requires
        !contains(normalized(b), seq!['\r', '\n']),
    ensures
        lines(normalized(b)) == drop_blank_tail(lines(b)),
        normalized(normalized(b)) == normalized(b),
        join_lines(lines(normalized(b))) == normalized(b),
        forall|k: int|
            0 <= k < lines(normalized(b)).len() ==> no_newline(#[trigger] lines(normalized(b))[k]),
        forall|k: int|
            0 <= k < lines(normalized(b)).len() - 1 ==> !ends_with_cr(
                #[trigger] lines(normalized(b))[k],
            ),
        lines(normalized(b)).len() > 0 ==> lines(normalized(b)).last().len() > 0,
{
    let ls = lines(b);
    let d = drop_blank_tail(ls);
    lemma_drop_blank_tail(ls);
    lemma_lines_from_no_newline(b, Seq::empty());
    assert forall|k: int| 0 <= k < d.len() implies no_newline(#[trigger] d[k]) by {
        assert(d[k] == ls[k]);
    }
    assert forall|k: int| 0 <= k < d.len() - 1 implies !ends_with_cr(#[trigger] d[k]) by {
        if ends_with_cr(d[k]) {
            lemma_join_lines_split(d, k + 1);
            let front = join_lines(d.take(k + 1));
            if k == 0 {
                assert(d.take(1) =~= seq![d[0]]);
            } else {
                assert(d.take(k + 1).drop_last() =~= d.take(k));
            }
            assert(front.len() > 0 && front.last() == '\r');
            let whole = join_lines(d);
            let p = front.len() - 1;
            assert(whole.subrange(p, p + 2) =~= seq!['\r', '\n']);
            assert(occurs_at(whole, seq!['\r', '\n'], p));
        }
    }
    if d.len() > 0 {
        assert(!all_ws(d.last()));
        assert(d.last().len() > 0);
    }
    lemma_lines_of_join(d);
}


/// No whitespace in `s`.
pub open spec fn no_ws(s: Seq<char>) -> bool {
    forall|i: int| 0 <= i < s.len() ==> !is_ws(#[trigger] s[i])
}

/// `c` does not occur in `s`.
pub open spec fn lacks(s: Seq<char>, c: char) -> bool {
    forall|i: int| 0 <= i < s.len() ==> #[trigger] s[i] != c
}

/// A run of non-whitespace followed by whitespace ends the word begun by
/// `c`.
pub proof fn lemma_words_from_word(x: Seq<char>, sp: char, y: Seq<char>, c: Seq<char>)
    requires
        no_ws(x),
        is_ws(sp),
    ensures
        words_from(x + seq![sp] + y, c) == nonempty_word(c + x) + words_from(y, Seq::empty()),
    decreases x.len(),
{
    let s = x + seq![sp] + y;
    if x.len() == 0 {
        assert(s.drop_first() =~= y);
        assert(c + x =~= c);
    } else {
        assert(s[0] == x[0]);
        assert(s.drop_first() =~= x.drop_first() + seq![sp] + y);
        lemma_words_from_word(x.drop_first(), sp, y, c.push(x[0]));
        assert(c.push(x[0]) + x.drop_first() =~= c + x);
    }
}

/// Text without whitespace is one last word.
pub proof fn lemma_words_from_last(x: Seq<char>, c: Seq<char>)
    requires
        no_ws(x),
    ensures
        words_from(x, c) == nonempty_word(c + x),
    decreases x.len(),
{
    if x.len() == 0 {
        assert(c + x =~= c);
    } else {
        lemma_words_from_last(x.drop_first(), c.push(x[0]));
        assert(c.push(x[0]) + x.drop_first() =~= c + x);
    }
}

/// A piece without `sep` followed by `sep` ends the piece begun by `c`.
pub proof fn lemma_split_from_piece(x: Seq<char>, sep: char, y: Seq<char>, c: Seq<char>)
    requires
        lacks(x, sep),
    ensures
        split_from(x + seq![sep] + y, sep, c) == seq![c + x] + split_from(y, sep, Seq::empty()),
    decreases x.len(),
{
    let s = x + seq![sep] + y;
    if x.len() == 0 {
        assert(s.drop_first() =~= y);
        assert(c + x =~= c);
    } else {
        assert(s[0] == x[0]);
        assert(s.drop_first() =~= x.drop_first() + seq![sep] + y);
        lemma_split_from_piece(x.drop_first(), sep, y, c.push(x[0]));
        assert(c.push(x[0]) + x.drop_first() =~= c + x);
    }
}

/// Text without `sep` is one last piece.
pub proof fn lemma_split_from_last(x: Seq<char>, sep: char, c: Seq<char>)
    requires
        lacks(x, sep),
    ensures
        split_from(x, sep, c) == seq![c + x],
    decreases x.len(),
{
    if x.len() == 0 {
        assert(c + x =~= c);
    } else {
        lemma_split_from_last(x.drop_first(), sep, c.push(x[0]));
        assert(c.push(x[0]) + x.drop_first() =~= c + x);
    }
}


/// Words split at whitespace: the words of `a`, then those of `b`.
pub proof fn lemma_words_from_concat(a: Seq<char>, sp: char, b: Seq<char>, c: Seq<char>)
    requires
        is_ws(sp),
    ensures
        words_from(a + seq![sp] + b, c) == words_from(a, c) + words(b),
    decreases a.len(),
{
    let s = a + seq![sp] + b;
    if a.len() == 0 {
        assert(s.drop_first() =~= b);
        assert(s[0] == sp);
    } else {
        assert(s[0] == a[0]);
        assert(s.drop_first() =~= a.drop_first() + seq![sp] + b);
        if is_ws(a[0]) {
            lemma_words_from_concat(a.drop_first(), sp, b, Seq::empty());
            assert(words_from(s, c) == nonempty_word(c) + words_from(s.drop_first(), Seq::empty()));
            assert(words_from(a, c) == nonempty_word(c) + words_from(a.drop_first(), Seq::empty()));
            assert(words_from(s, c) =~= words_from(a, c) + words(b));
        } else {
            lemma_words_from_concat(a.drop_first(), sp, b, c.push(a[0]));
        }
    }
}

/// Every word is non-empty and holds no whitespace.
pub proof fn lemma_words_from_shape(s: Seq<char>, c: Seq<char>)
    requires
        no_ws(c),
    ensures
        forall|k: int|
            0 <= k < words_from(s, c).len() ==> (#[trigger] words_from(s, c)[k]).len() > 0 && no_ws(
                words_from(s, c)[k],
            ),
    decreases s.len(),
{
    if s.len() == 0 {
        if c.len() > 0 {
            assert(words_from(s, c) =~= seq![c]);
        } else {
            assert(words_from(s, c).len() == 0);
        }
    } else if is_ws(s[0]) {
        lemma_words_from_shape(s.drop_first(), Seq::empty());
        let rest = words_from(s.drop_first(), Seq::empty());
        assert(words_from(s, c) == nonempty_word(c) + rest);
        assert forall|k: int| 0 <= k < words_from(s, c).len() implies (#[trigger] words_from(
            s,
            c,
        )[k]).len() > 0 && no_ws(words_from(s, c)[k]) by {
            if c.len() > 0 {
                if k == 0 {
                    assert(words_from(s, c)[k] == c);
                } else {
                    assert(words_from(s, c)[k] == rest[k - 1]);
                }
            } else {
                assert(words_from(s, c)[k] == rest[k]);
            }
        }
    } else {
        assert(no_ws(c.push(s[0]))) by {
            assert forall|i: int| 0 <= i < c.len() + 1 implies !is_ws(#[trigger] c.push(s[0])[i]) by {
                if i < c.len() {
                    assert(c.push(s[0])[i] == c[i]);
                }
            }
        }
        lemma_words_from_shape(s.drop_first(), c.push(s[0]));
        assert(words_from(s, c) == words_from(s.drop_first(), c.push(s[0])));
    }
}


/// Normalized text is empty or ends with a character of its last line,
/// never with a line break.
pub proof fn lemma_normalized_last(b: Seq<char>)
    ensures
        normalized(b).len() > 0 ==> normalized(b).last() != '\n',
{
    let ls = lines(b);
    let d = drop_blank_tail(ls);
    lemma_drop_blank_tail(ls);
    lemma_lines_from_no_newline(b, Seq::empty());
    if d.len() > 0 {
        assert(d.last() == ls[d.len() - 1]);
        assert(no_newline(d.last()));
        assert(!all_ws(d.last()));
        assert(d.last().len() > 0);
        if d.len() >= 2 {
            assert(join_lines(d) == join_lines(d.drop_last()) + seq!['\n'] + d.last());
        }
        assert(join_lines(d).last() == d.last().last());
    } else {
        assert(join_lines(d) =~= Seq::<char>::empty());
    }
}


/// Lines joined and ended with a line break split back into the same
/// lines, when none holds a line break or ends in a carriage return.
pub proof fn lemma_lines_of_join_newline(ls: Seq<Seq<char>>)
    requires
        ls.len() > 0,
        forall|k: int| 0 <= k < ls.len() ==> no_newline(#[trigger] ls[k]),
        forall|k: int| 0 <= k < ls.len() ==> !ends_with_cr(#[trigger] ls[k]),
    ensures
        lines(join_lines(ls) + seq!['\n']) == ls,
    decreases ls.len(),
{
    assert(no_newline(ls[0]) && !ends_with_cr(ls[0]));
    assert(Seq::<char>::empty() + ls[0] =~= ls[0]);
    if ls.len() == 1 {
        lemma_lines_from_line(ls[0], Seq::empty(), Seq::empty());
        assert(ls[0] + seq!['\n'] + Seq::<char>::empty() =~= join_lines(ls) + seq!['\n']);
        assert(lines(Seq::<char>::empty()) =~= Seq::<Seq<char>>::empty());
        assert(seq![ls[0]] + Seq::<Seq<char>>::empty() =~= ls);
    } else {
        lemma_join_lines_front(ls);
        let r = ls.drop_first();
        assert forall|k: int| 0 <= k < r.len() implies no_newline(#[trigger] r[k]) && !ends_with_cr(
            r[k],
        ) by {
            assert(r[k] == ls[k + 1]);
        }
        lemma_lines_of_join_newline(r);
        lemma_lines_from_line(ls[0], join_lines(r) + seq!['\n'], Seq::empty());
        assert(ls[0] + seq!['\n'] + (join_lines(r) + seq!['\n']) =~= join_lines(ls) + seq!['\n']);
        assert(seq![ls[0]] + r =~= ls);
    }
}

} // verus!
