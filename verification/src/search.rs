//! Searching entries by tag or keyword, and highlighting the matches.
use crate::calendar::{local_now, strftime_result, DateTime};
use crate::entry::{render_with, tags_of, Entry, TIMESTAMP_FMT};
use crate::text::{
    is_whitespace, ascii_lower, ascii_lowercase, extend_str, is_ws, matches_at, occurs_at, chars_eq, contains, contains_chars, from_chars, lines, split_lines, split_whitespace, to_chars,
    to_lowercase, lowered, words, ascii_upper, is_ascii_text, lemma_ascii_upper_then_lower,
};
use vstd::prelude::*;

verus! {

/// How search results are selected: every term (`all`) or any term, and at
/// most `limit` entries.
pub struct SearchOptions {
    pub all: bool,
    pub limit: Option<usize>,
}

/// A parsed search term: an `@tag` matched against whole tag tokens, or a
/// plain term matched as a substring; both already lowercased.
#[derive(Debug)]
pub enum Term {
    Tag(Vec<char>),
    Substring(Vec<char>),
}

impl Term {
    /// `(is a tag term, lowercased text)`.
    pub open spec fn view(self) -> (bool, Seq<char>) {
        match self {
            Term::Tag(t) => (true, t@),
            Term::Substring(s) => (false, s@),
        }
    }
}

/// `+` replaced by a space, joining words into one term.
pub open spec fn plus_to_space(t: Seq<char>) -> Seq<char> {
    Seq::new(
        t.len(),
        |i: int|
            if t[i] == '+' {
                ' '
            } else {
                t[i]
            },
    )
}

/// The term a query word makes: `@` and more is a tag term, anything else
/// a substring term; lowercased either way.
pub open spec fn term_of(word: Seq<char>) -> (bool, Seq<char>) {
    let t = plus_to_space(word);
    (t.len() > 1 && t[0] == '@', lowered(t))
}

/// The terms of a query: its whitespace-separated words, in order.
pub open spec fn terms_of(query: Seq<char>) -> Seq<(bool, Seq<char>)> {
    Seq::new(words(query).len(), |k: int| term_of(words(query)[k]))
}

/// Parses a query into terms.
pub fn parse_terms(query: &str) -> (out: Vec<Term>)
    ensures
        out@.len() == terms_of(query@).len(),
        forall|k: int| 0 <= k < out@.len() ==> #[trigger] out@[k].view() == terms_of(query@)[k],
{
    let cs = to_chars(query);
    let ws = split_whitespace(cs.as_slice());
    let mut out: Vec<Term> = Vec::new();
    let mut k: usize = 0;
    while k < ws.len()
        invariant
            k <= ws@.len(),
            ws@.len() == words(query@).len(),
            forall|j: int| 0 <= j < ws@.len() ==> #[trigger] ws@[j]@ == words(query@)[j],
            out@.len() == k,
            forall|j: int| 0 <= j < k ==> #[trigger] out@[j].view() == terms_of(query@)[j],
        decreases ws.len() - k,
    {
        let w = &ws[k];
        let mut t: Vec<char> = Vec::new();
        let mut i: usize = 0;
        while i < w.len()
            invariant
                i <= w@.len(),
                t@ == plus_to_space(w@).take(i as int),
            decreases w.len() - i,
        {
            t.push(
                if w[i] == '+' {
                    ' '
                } else {
                    w[i]
                },
            );
            i = i + 1;
            assert(t@ =~= plus_to_space(w@).take(i as int));
        }
        assert(t@ =~= plus_to_space(w@));
        let lower = to_lowercase(from_chars(t.as_slice()).as_str());
        let lv = to_chars(lower.as_str());
        if t.len() > 1 && t[0] == '@' {
            out.push(Term::Tag(lv));
        } else {
            out.push(Term::Substring(lv));
        }
        k = k + 1;
    }
    out
}

/// The header text `render` writes for `e` when `now` is the current day.
pub open spec fn header_text(e: Entry, now: DateTime) -> Seq<char> {
    match e.raw_header {
        Some(r) => r@,
        None => strftime_result(TIMESTAMP_FMT@, e.timestamp.resolved_spec(now))->0,
    }
}

/// The lowercased on-disk form of `e`, which substring terms are matched
/// against.
pub open spec fn haystack(e: Entry, now: DateTime) -> Seq<char> {
    lowered(render_with(header_text(e, now), e.body@))
}

/// Some tag token of the body, lowercased, equals `t`.
pub open spec fn has_tag(body: Seq<char>, t: Seq<char>) -> bool {
    exists|k: int| 0 <= k < tags_of(body).len() && lowered(#[trigger] tags_of(body)[k]) == t
}

/// Whether one term matches a whole entry.
pub open spec fn term_matches_entry(term: (bool, Seq<char>), e: Entry, now: DateTime) -> bool {
    if term.0 {
        has_tag(e.body@, term.1)
    } else {
        contains(haystack(e, now), term.1)
    }
}

/// Whether the terms select an entry: every term with `all`, else any.
pub open spec fn entry_selected(terms: Seq<(bool, Seq<char>)>, all: bool, e: Entry, now: DateTime) -> bool {
    if all {
        forall|k: int| 0 <= k < terms.len() ==> term_matches_entry(#[trigger] terms[k], e, now)
    } else {
        exists|k: int| 0 <= k < terms.len() && term_matches_entry(#[trigger] terms[k], e, now)
    }
}

/// The entries among `es` that the terms select, in order.
pub open spec fn selected(es: Seq<Entry>, terms: Seq<(bool, Seq<char>)>, all: bool, now: DateTime) -> Seq<Entry>
    decreases es.len(),
{
    if es.len() == 0 {
        Seq::empty()
    } else if entry_selected(terms, all, es.last(), now) {
        selected(es.drop_last(), terms, all, now).push(es.last())
    } else {
        selected(es.drop_last(), terms, all, now)
    }
}

/// `s` cut to at most `limit` items (no cut without a limit).
pub open spec fn limited<T>(s: Seq<T>, limit: Option<usize>) -> Seq<T> {
    match limit {
        Some(n) => if n < s.len() {
            s.take(n as int)
        } else {
            s
        },
        None => s,
    }
}

/// What a search returns when `now` is the current day: nothing for a
/// query without terms, else the selected entries in order, limited.
pub open spec fn search_spec(es: Seq<Entry>, query: Seq<char>, all: bool, limit: Option<usize>, now: DateTime) -> Seq<Entry> {
    if terms_of(query).len() == 0 {
        Seq::empty()
    } else {
        limited(selected(es, terms_of(query), all, now), limit)
    }
}

fn has_tag_exec(tags: &Vec<String>, t: &Vec<char>, body: Ghost<Seq<char>>) -> (b: bool)
    requires
        tags@.len() == tags_of(body@).len(),
        forall|k: int| 0 <= k < tags@.len() ==> #[trigger] tags@[k]@ == tags_of(body@)[k],
    ensures
        b == has_tag(body@, t@),
{
    let mut k: usize = 0;
    while k < tags.len()
        invariant
            k <= tags@.len(),
            tags@.len() == tags_of(body@).len(),
            forall|j: int| 0 <= j < tags@.len() ==> #[trigger] tags@[j]@ == tags_of(body@)[j],
            forall|j: int| 0 <= j < k ==> lowered(#[trigger] tags_of(body@)[j]) != t@,
        decreases tags.len() - k,
    {
        let l = to_chars(to_lowercase(tags[k].as_str()).as_str());
        if chars_eq(l.as_slice(), t.as_slice()) {
            assert(lowered(tags_of(body@)[k as int]) == t@);
            return true;
        }
        assert(l@ != t@);
        k = k + 1;
    }
    false
}

/// Whether entry `e` (rendered form `hay`, lowercased) is selected.
fn entry_selected_exec(terms: &Vec<Term>, all: bool, e: &Entry, hay: &Vec<char>, now: Ghost<DateTime>, tv: Ghost<Seq<(bool, Seq<char>)>>) -> (b: bool)
    requires
        hay@ == haystack(*e, now@),
        terms@.len() == tv@.len(),
        forall|k: int| 0 <= k < terms@.len() ==> #[trigger] terms@[k].view() == tv@[k],
    ensures
        b == entry_selected(tv@, all, *e, now@),
{
    let tags = e.tags();
    let mut k: usize = 0;
    while k < terms.len()
        invariant
            k <= terms@.len(),
            hay@ == haystack(*e, now@),
            terms@.len() == tv@.len(),
            forall|j: int| 0 <= j < terms@.len() ==> #[trigger] terms@[j].view() == tv@[j],
            tags@.len() == tags_of(e.body@).len(),
            forall|j: int| 0 <= j < tags@.len() ==> #[trigger] tags@[j]@ == tags_of(e.body@)[j],
            all ==> forall|j: int| 0 <= j < k ==> term_matches_entry(#[trigger] tv@[j], *e, now@),
            !all ==> forall|j: int| 0 <= j < k ==> !term_matches_entry(#[trigger] tv@[j], *e, now@),
        decreases terms.len() - k,
    {
        let ghost tk = tv@[k as int];
        assert(terms@[k as int].view() == tk);
        let m = match &terms[k] {
            Term::Tag(t) => {
                assert(tk == (true, t@));
                has_tag_exec(&tags, t, Ghost(e.body@))
            },
            Term::Substring(s) => {
                assert(tk == (false, s@));
                contains_chars(hay.as_slice(), s.as_slice())
            },
        };
        assert(m == term_matches_entry(tv@[k as int], *e, now@));
        if all && !m {
            return false;
        }
        if !all && m {
            return true;
        }
        k = k + 1;
    }
    all
}

/// The entries matching `query` when `now` is the current day (for an
/// entry built without a stored header, its rendered timestamp depends on
/// it), in the order given, cut to `opts.limit`.
pub fn search_at<'a>(entries: &'a [Entry], query: &str, opts: &SearchOptions, now: DateTime) -> (out: Vec<&'a Entry>)
    requires
        now.wf(),
        forall|i: int| 0 <= i < entries@.len() ==> (#[trigger] entries@[i]).wf(),
    ensures
        out@.len() == search_spec(entries@, query@, opts.all, opts.limit, now).len(),
        forall|k: int|
            0 <= k < out@.len() ==> *(#[trigger] out@[k]) == search_spec(
                entries@,
                query@,
                opts.all,
                opts.limit,
                now,
            )[k],
{
    let terms = parse_terms(query);
    let mut out: Vec<&'a Entry> = Vec::new();
    if terms.len() == 0 {
        return out;
    }
    let ghost tv = terms_of(query@);
    let mut i: usize = 0;
    assert(entries@.take(0) =~= Seq::<Entry>::empty());
    while i < entries.len()
        invariant
            i <= entries@.len(),
            now.wf(),
            forall|j: int| 0 <= j < entries@.len() ==> (#[trigger] entries@[j]).wf(),
            terms@.len() == tv.len(),
            forall|k: int| 0 <= k < terms@.len() ==> #[trigger] terms@[k].view() == tv[k],
            out@.len() == selected(entries@.take(i as int), tv, opts.all, now).len(),
            forall|k: int|
                0 <= k < out@.len() ==> *(#[trigger] out@[k]) == selected(
                    entries@.take(i as int),
                    tv,
                    opts.all,
                    now,
                )[k],
        decreases entries.len() - i,
    {
        let e = &entries[i];
        let rendered = e.render_at(now);
        let hay = to_chars(to_lowercase(rendered.as_str()).as_str());
        assert(hay@ == haystack(*e, now));
        assert(entries@.take(i + 1).drop_last() =~= entries@.take(i as int));
        if entry_selected_exec(&terms, opts.all, e, &hay, Ghost(now), Ghost(tv)) {
            out.push(e);
        }
        i = i + 1;
    }
    assert(entries@.take(entries@.len() as int) =~= entries@);
    match opts.limit {
        Some(n) => {
            if n < out.len() {
                out.truncate(n);
            }
        },
        None => {},
    }
    out
}

/// The entries matching `query`, in the order given, cut to `opts.limit`.
/// Substring terms match anywhere in the lowercased on-disk form of an
/// entry; tag terms match whole tag tokens; an empty query matches
/// nothing.
pub fn search<'a>(entries: &'a [Entry], query: &str, opts: &SearchOptions) -> (out: Vec<&'a Entry>)
    requires
        forall|i: int| 0 <= i < entries@.len() ==> (#[trigger] entries@[i]).wf(),
    ensures
        exists|now: DateTime|
            now.wf() && out@.len() == search_spec(entries@, query@, opts.all, opts.limit, now).len()
                && forall|k: int|
                0 <= k < out@.len() ==> *(#[trigger] out@[k]) == search_spec(
                    entries@,
                    query@,
                    opts.all,
                    opts.limit,
                    now,
                )[k],
{
    let now = local_now();
    search_at(entries, query, opts, now)
}

/// Whether one term matches a single body line: a tag term against the
/// line's own tokens, a substring term against the lowercased line.
pub open spec fn term_matches_line(term: (bool, Seq<char>), line: Seq<char>) -> bool {
    if term.0 {
        exists|k: int| 0 <= k < words(line).len() && lowered(#[trigger] words(line)[k]) == term.1
    } else {
        contains(lowered(line), term.1)
    }
}

/// Whether the terms select a line: every term on that same line with
/// `all`, else any.
pub open spec fn line_selected(terms: Seq<(bool, Seq<char>)>, all: bool, line: Seq<char>) -> bool {
    if all {
        forall|k: int| 0 <= k < terms.len() ==> term_matches_line(#[trigger] terms[k], line)
    } else {
        exists|k: int| 0 <= k < terms.len() && term_matches_line(#[trigger] terms[k], line)
    }
}

/// The lines among `ls` that the terms select, in order.
pub open spec fn selected_lines(ls: Seq<Seq<char>>, terms: Seq<(bool, Seq<char>)>, all: bool) -> Seq<Seq<char>>
    decreases ls.len(),
{
    if ls.len() == 0 {
        Seq::empty()
    } else if line_selected(terms, all, ls.last()) {
        selected_lines(ls.drop_last(), terms, all).push(ls.last())
    } else {
        selected_lines(ls.drop_last(), terms, all)
    }
}

/// Each entry with at least one selected body line, paired with those
/// lines, in order.
pub open spec fn selected_blocks(es: Seq<Entry>, terms: Seq<(bool, Seq<char>)>, all: bool) -> Seq<(Entry, Seq<Seq<char>>)>
    decreases es.len(),
{
    if es.len() == 0 {
        Seq::empty()
    } else {
        let ml = selected_lines(lines(es.last().body@), terms, all);
        if ml.len() > 0 {
            selected_blocks(es.drop_last(), terms, all).push((es.last(), ml))
        } else {
            selected_blocks(es.drop_last(), terms, all)
        }
    }
}

/// What a lines-only search returns: nothing for a query without terms,
/// else the entries with selected lines and those lines, limited to
/// `limit` entries.
pub open spec fn search_lines_spec(es: Seq<Entry>, query: Seq<char>, all: bool, limit: Option<usize>) -> Seq<(Entry, Seq<Seq<char>>)> {
    if terms_of(query).len() == 0 {
        Seq::empty()
    } else {
        limited(selected_blocks(es, terms_of(query), all), limit)
    }
}

fn line_matches_term(term: &Term, line: &Vec<char>, lower: &Vec<char>, tv: Ghost<(bool, Seq<char>)>) -> (b: bool)
    requires
        term.view() == tv@,
        lower@ == lowered(line@),
    ensures
        b == term_matches_line(tv@, line@),
{
    match term {
        Term::Tag(t) => {
            let ws = split_whitespace(line.as_slice());
            let mut k: usize = 0;
            while k < ws.len()
                invariant
                    k <= ws@.len(),
                    tv@ == (true, t@),
                    ws@.len() == words(line@).len(),
                    forall|j: int| 0 <= j < ws@.len() ==> #[trigger] ws@[j]@ == words(line@)[j],
                    forall|j: int| 0 <= j < k ==> lowered(#[trigger] words(line@)[j]) != t@,
                decreases ws.len() - k,
            {
                let l = to_chars(to_lowercase(from_chars(ws[k].as_slice()).as_str()).as_str());
                if chars_eq(l.as_slice(), t.as_slice()) {
                    assert(lowered(words(line@)[k as int]) == t@);
                    return true;
                }
                k = k + 1;
            }
            false
        },
        Term::Substring(s) => contains_chars(lower.as_slice(), s.as_slice()),
    }
}

fn line_selected_exec(terms: &Vec<Term>, all: bool, line: &Vec<char>, tv: Ghost<Seq<(bool, Seq<char>)>>) -> (b: bool)
    requires
        terms@.len() == tv@.len(),
        forall|k: int| 0 <= k < terms@.len() ==> #[trigger] terms@[k].view() == tv@[k],
    ensures
        b == line_selected(tv@, all, line@),
{
    let lower = to_chars(to_lowercase(from_chars(line.as_slice()).as_str()).as_str());
    let mut k: usize = 0;
    while k < terms.len()
        invariant
            k <= terms@.len(),
            lower@ == lowered(line@),
            terms@.len() == tv@.len(),
            forall|j: int| 0 <= j < terms@.len() ==> #[trigger] terms@[j].view() == tv@[j],
            all ==> forall|j: int| 0 <= j < k ==> term_matches_line(#[trigger] tv@[j], line@),
            !all ==> forall|j: int| 0 <= j < k ==> !term_matches_line(#[trigger] tv@[j], line@),
        decreases terms.len() - k,
    {
        let m = line_matches_term(&terms[k], line, &lower, Ghost(tv@[k as int]));
        if all && !m {
            return false;
        }
        if !all && m {
            return true;
        }
        k = k + 1;
    }
    all
}

/// Like `search`, but per body line, for `-L/--lines-only`: an entry is
/// included only if at least one of its body lines satisfies the terms
/// (with `all`, every term on that same line), and only those lines are
/// returned with it. `opts.limit` caps the number of entries.
pub fn search_lines<'a>(entries: &'a [Entry], query: &str, opts: &SearchOptions) -> (out: Vec<(&'a Entry, Vec<String>)>)
    ensures
        out@.len() == search_lines_spec(entries@, query@, opts.all, opts.limit).len(),
        forall|k: int|
            0 <= k < out@.len() ==> {
                let want = #[trigger] search_lines_spec(entries@, query@, opts.all, opts.limit)[k];
                &&& *out@[k].0 == want.0
                &&& out@[k].1@.len() == want.1.len()
                &&& forall|j: int| 0 <= j < want.1.len() ==> #[trigger] out@[k].1@[j]@ == want.1[j]
            },
{
    let terms = parse_terms(query);
    let mut out: Vec<(&'a Entry, Vec<String>)> = Vec::new();
    if terms.len() == 0 {
        return out;
    }
    let ghost tv = terms_of(query@);
    let mut i: usize = 0;
    assert(entries@.take(0) =~= Seq::<Entry>::empty());
    while i < entries.len()
        invariant
            i <= entries@.len(),
            terms@.len() == tv.len(),
            forall|k: int| 0 <= k < terms@.len() ==> #[trigger] terms@[k].view() == tv[k],
            out@.len() == selected_blocks(entries@.take(i as int), tv, opts.all).len(),
            forall|k: int|
                0 <= k < out@.len() ==> {
                    let want = #[trigger] selected_blocks(entries@.take(i as int), tv, opts.all)[k];
                    &&& *out@[k].0 == want.0
                    &&& out@[k].1@.len() == want.1.len()
                    &&& forall|j: int|
                        0 <= j < want.1.len() ==> #[trigger] out@[k].1@[j]@ == want.1[j]
                },
        decreases entries.len() - i,
    {
        let e = &entries[i];
        let body = to_chars(e.body.as_str());
        let ls = split_lines(body.as_slice());
        let ghost lv = lines(e.body@);
        let mut picked: Vec<String> = Vec::new();
        let mut j: usize = 0;
        assert(lv.take(0) =~= Seq::<Seq<char>>::empty());
        while j < ls.len()
            invariant
                j <= ls@.len(),
                ls@.len() == lv.len(),
                forall|k: int| 0 <= k < ls@.len() ==> #[trigger] ls@[k]@ == lv[k],
                terms@.len() == tv.len(),
                forall|k: int| 0 <= k < terms@.len() ==> #[trigger] terms@[k].view() == tv[k],
                picked@.len() == selected_lines(lv.take(j as int), tv, opts.all).len(),
                forall|k: int|
                    0 <= k < picked@.len() ==> #[trigger] picked@[k]@ == selected_lines(
                        lv.take(j as int),
                        tv,
                        opts.all,
                    )[k],
            decreases ls.len() - j,
        {
            assert(lv.take(j + 1).drop_last() =~= lv.take(j as int));
            if line_selected_exec(&terms, opts.all, &ls[j], Ghost(tv)) {
                picked.push(from_chars(ls[j].as_slice()));
            }
            j = j + 1;
        }
        assert(lv.take(lv.len() as int) =~= lv);
        assert(entries@.take(i + 1).drop_last() =~= entries@.take(i as int));
        if picked.len() > 0 {
            out.push((e, picked));
        }
        i = i + 1;
    }
    assert(entries@.take(entries@.len() as int) =~= entries@);
    match opts.limit {
        Some(n) => {
            if n < out.len() {
                out.truncate(n);
            }
        },
        None => {},
    }
    out
}

/// ANSI bold red, `grep`'s default match style.
pub const HIGHLIGHT_START: &'static str = "\x1b[1;31m";

/// ANSI reset.
pub const HIGHLIGHT_END: &'static str = "\x1b[0m";

/// `[a, b)` is a whitespace-delimited token of `text`.
pub open spec fn token_span(text: Seq<char>, a: int, b: int) -> bool {
    &&& 0 <= a < b <= text.len()
    &&& forall|i: int| a <= i < b ==> !is_ws(#[trigger] text[i])
    &&& (a == 0 || is_ws(text[a - 1]))
    &&& (b == text.len() || is_ws(text[b]))
}

/// Position `i` of `text` lies in a match of `term`: for a substring term,
/// inside an occurrence of it in the ASCII-lowercased text; for a tag
/// term, inside a token whose ASCII-lowercased text equals it.
pub open spec fn covered_by(text: Seq<char>, term: (bool, Seq<char>), i: int) -> bool {
    let lower = ascii_lower(text);
    if term.0 {
        exists|a: int, b: int|
            token_span(text, a, b) && lower.subrange(a, b) == term.1 && a <= i < b
    } else {
        term.1.len() > 0 && exists|p: int|
            occurs_at(lower, term.1, p) && p <= i < p + term.1.len()
    }
}

/// Position `i` lies in a match of some term.
pub open spec fn covered(text: Seq<char>, terms: Seq<(bool, Seq<char>)>, i: int) -> bool {
    exists|k: int| 0 <= k < terms.len() && covered_by(text, #[trigger] terms[k], i)
}

/// Character `i` of `text`, with the start code in front of it when it
/// begins a run of marked positions and the end code after it when it ends
/// one.
pub open spec fn marked_char(text: Seq<char>, m: Seq<bool>, i: int) -> Seq<char> {
    (if m[i] && (i == 0 || !m[i - 1]) {
        HIGHLIGHT_START@
    } else {
        Seq::empty()
    }) + seq![text[i]] + (if m[i] && (i + 1 == text.len() || !m[i + 1]) {
        HIGHLIGHT_END@
    } else {
        Seq::empty()
    })
}

/// The first `n` characters of `text`, each maximal run of marked
/// positions wrapped in the highlight codes.
pub open spec fn marked_text(text: Seq<char>, m: Seq<bool>, n: int) -> Seq<char>
    decreases n,
{
    if n <= 0 {
        Seq::empty()
    } else {
        marked_text(text, m, n - 1) + marked_char(text, m, n - 1)
    }
}

/// What `highlight` returns: the text unchanged for a query without terms,
/// else the text with every maximal run of positions covered by some
/// term's matches wrapped in the highlight codes (overlapping and adjacent
/// matches merge into one run).
pub open spec fn highlight_spec(text: Seq<char>, query: Seq<char>) -> Seq<char> {
    let terms = terms_of(query);
    if terms.len() == 0 {
        text
    } else {
        marked_text(text, Seq::new(text.len(), |i: int| covered(text, terms, i)), text.len() as int)
    }
}

/// Sets `mask[a..b]` to true.
fn mark_range(mask: &mut Vec<bool>, a: usize, b: usize)
    requires
        a <= b <= old(mask)@.len(),
    ensures
        final(mask)@.len() == old(mask)@.len(),
        forall|x: int|
            0 <= x < final(mask)@.len() ==> #[trigger] final(mask)@[x] == (old(mask)@[x] || (a <= x
                < b)),
{
    let mut i = a;
    while i < b
        invariant
            a <= i <= b <= mask@.len(),
            mask@.len() == old(mask)@.len(),
            forall|x: int|
                0 <= x < mask@.len() ==> #[trigger] mask@[x] == (old(mask)@[x] || (a <= x < i)),
        decreases b - i,
    {
        mask.set(i, true);
        i = i + 1;
    }
}

/// Finds every occurrence, overlapping ones included, of a non-empty
/// `needle` in `lower`, and marks the positions it covers in `mask`.
fn find_all(mask: &mut Vec<bool>, lower: &Vec<char>, needle: &Vec<char>)
    requires
        old(mask)@.len() == lower@.len(),
        needle@.len() > 0,
    ensures
        final(mask)@.len() == old(mask)@.len(),
        forall|x: int|
            0 <= x < final(mask)@.len() ==> #[trigger] final(mask)@[x] == (old(mask)@[x] || exists|
                p: int,
            | occurs_at(lower@, needle@, p) && p <= x < p + needle@.len()),
{
    let n = lower.len();
    let m = needle.len();
    if m > n {
        assert forall|x: int| 0 <= x < mask@.len() implies #[trigger] mask@[x] == (old(mask)@[x]
            || exists|p: int| occurs_at(lower@, needle@, p) && p <= x < p + needle@.len()) by {
            assert forall|p: int| !occurs_at(lower@, needle@, p) by {}
        }
        return ;
    }
    let mut p: usize = 0;
    let last = n - m;
    while p <= last
        invariant
            last == n - m,
            p <= last + 1,
            n == lower@.len(),
            m == needle@.len(),
            m > 0,
            mask@.len() == n,
            forall|x: int|
                0 <= x < mask@.len() ==> #[trigger] mask@[x] == (old(mask)@[x] || exists|q: int|
                    0 <= q < p && occurs_at(lower@, needle@, q) && q <= x < q + m),
        decreases last + 1 - p,
    {
        let ghost before = mask@;
        if matches_at(lower.as_slice(), needle.as_slice(), p) {
            mark_range(mask, p, p + m);
        }
        assert forall|x: int| 0 <= x < mask@.len() implies #[trigger] mask@[x] == (old(mask)@[x]
            || exists|q: int| 0 <= q < p + 1 && occurs_at(lower@, needle@, q) && q <= x < q + m) by {
            if exists|q: int| 0 <= q < p + 1 && occurs_at(lower@, needle@, q) && q <= x < q + m {
                let q = choose|q: int| 0 <= q < p + 1 && occurs_at(lower@, needle@, q) && q <= x < q + m;
                if q < p {
                    assert(before[x]);
                }
            }
        }
        p = p + 1;
    }
    assert forall|x: int| 0 <= x < mask@.len() implies #[trigger] mask@[x] == (old(mask)@[x]
        || exists|q: int| occurs_at(lower@, needle@, q) && q <= x < q + m) by {
        if exists|q: int| occurs_at(lower@, needle@, q) && q <= x < q + m {
            let q = choose|q: int| occurs_at(lower@, needle@, q) && q <= x < q + m;
            assert(0 <= q < p);
        }
    }
}

/// A token of `text` ending before `lim` whose lowercased text is `t`
/// covers `x`.
pub open spec fn token_hit(text: Seq<char>, t: Seq<char>, x: int, lim: int) -> bool {
    exists|a: int, b: int|
        token_span(text, a, b) && b < lim && ascii_lower(text).subrange(a, b) == t && a <= x < b
}

/// Whether `lower[a..b]` equals `t`.
fn slice_equals(lower: &Vec<char>, a: usize, b: usize, t: &Vec<char>) -> (r: bool)
    requires
        a <= b <= lower@.len(),
    ensures
        r == (lower@.subrange(a as int, b as int) == t@),
{
    if b - a != t.len() {
        return false;
    }
    let mut i: usize = 0;
    while i < t.len()
        invariant
            i <= t@.len(),
            b - a == t@.len(),
            a <= b <= lower@.len(),
            forall|k: int| 0 <= k < i ==> lower@[a + k] == t@[k],
        decreases t.len() - i,
    {
        if lower[a + i] != t[i] {
            assert(lower@.subrange(a as int, b as int)[i as int] != t@[i as int]);
            return false;
        }
        i = i + 1;
    }
    assert(lower@.subrange(a as int, b as int) =~= t@);
    true
}

/// Finds every whitespace-delimited token of `text` whose ASCII-lowercased
/// text equals `t` (a whole-word match, so `@bp` never matches `@bph`), and
/// marks its positions in `mask`.
fn find_tag_tokens(mask: &mut Vec<bool>, text: &Vec<char>, lower: &Vec<char>, t: &Vec<char>)
    requires
        old(mask)@.len() == text@.len(),
        lower@ == ascii_lower(text@),
    ensures
        final(mask)@.len() == old(mask)@.len(),
        forall|x: int|
            0 <= x < final(mask)@.len() ==> #[trigger] final(mask)@[x] == (old(mask)@[x]
                || token_hit(text@, t@, x, text@.len() + 1int)),
{
    let n = text.len();
    let mut start: Option<usize> = None;
    let mut i: usize = 0;
    while i < n
        invariant
            i <= n == text@.len(),
            lower@ == ascii_lower(text@),
            mask@.len() == n,
            old(mask)@.len() == n,
            match start {
                Some(a) => a < i && (forall|k: int| a <= k < i ==> !is_ws(#[trigger] text@[k])) && (a
                    == 0 || is_ws(text@[a - 1])),
                None => i == 0 || is_ws(text@[i - 1]),
            },
            forall|x: int|
                0 <= x < n ==> #[trigger] mask@[x] == (old(mask)@[x] || token_hit(
                    text@,
                    t@,
                    x,
                    i as int,
                )),
        decreases n - i,
    {
        let ghost before = mask@;
        let ghost st = start;
        let ws = is_whitespace(text[i]);
        let mut hit = false;
        if ws {
            match start {
                Some(a) => {
                    if slice_equals(lower, a, i, t) {
                        hit = true;
                        mark_range(mask, a, i);
                    }
                    start = None;
                },
                None => {},
            }
        } else {
            if start.is_none() {
                start = Some(i);
            }
        }
        proof {
            // a token ending at `i` is the one that started at `st`
            assert forall|a: int, b: int|
                token_span(text@, a, b) && b == i implies st == Some(a as usize) by {
                match st {
                    Some(a0) => {
                        if a0 < a {
                            assert(!is_ws(text@[a - 1]));
                        }
                        if a < a0 {
                            assert(!is_ws(text@[a0 - 1]));
                        }
                    },
                    None => {
                        assert(!is_ws(text@[i - 1]));
                    },
                }
            }
            assert forall|x: int| 0 <= x < n implies #[trigger] mask@[x] == (old(mask)@[x]
                || token_hit(text@, t@, x, i + 1)) by {
                if hit {
                    let a = st->0 as int;
                    if a <= x < i {
                        assert(token_span(text@, a, i as int));
                        assert(token_hit(text@, t@, x, i + 1));
                    }
                }
                if token_hit(text@, t@, x, i + 1) {
                    let (a, b) = choose|a: int, b: int|
                        token_span(text@, a, b) && b < i + 1 && ascii_lower(text@).subrange(a, b)
                            == t@ && a <= x < b;
                    if b < i {
                        assert(token_hit(text@, t@, x, i as int));
                    } else {
                        assert(st == Some(a as usize));
                        assert(hit);
                    }
                }
                if token_hit(text@, t@, x, i as int) {
                    let (a, b) = choose|a: int, b: int|
                        token_span(text@, a, b) && b < i && ascii_lower(text@).subrange(a, b) == t@
                            && a <= x < b;
                    assert(token_hit(text@, t@, x, i + 1));
                }
            }
        }
        i = i + 1;
    }
    let ghost before = mask@;
    let ghost st = start;
    let mut hit = false;
    match start {
        Some(a) => {
            if slice_equals(lower, a, n, t) {
                hit = true;
                mark_range(mask, a, n);
            }
        },
        None => {},
    }
    proof {
        assert forall|a: int, b: int|
            token_span(text@, a, b) && b == n implies st == Some(a as usize) by {
            match st {
                Some(a0) => {
                    if a0 < a {
                        assert(!is_ws(text@[a - 1]));
                    }
                    if a < a0 {
                        assert(!is_ws(text@[a0 - 1]));
                    }
                },
                None => {
                    assert(!is_ws(text@[n - 1]));
                },
            }
        }
        assert forall|x: int| 0 <= x < n implies #[trigger] mask@[x] == (old(mask)@[x]
            || token_hit(text@, t@, x, n + 1int)) by {
            if hit {
                let a = st->0 as int;
                if a <= x < n {
                    assert(token_span(text@, a, n as int));
                    assert(token_hit(text@, t@, x, n + 1int));
                }
            }
            if token_hit(text@, t@, x, n + 1int) {
                let (a, b) = choose|a: int, b: int|
                    token_span(text@, a, b) && b < n + 1 && ascii_lower(text@).subrange(a, b) == t@
                        && a <= x < b;
                if b < n {
                    assert(token_hit(text@, t@, x, n as int));
                } else {
                    assert(st == Some(a as usize));
                    assert(hit);
                }
            }
            if token_hit(text@, t@, x, n as int) {
                let (a, b) = choose|a: int, b: int|
                    token_span(text@, a, b) && b < n && ascii_lower(text@).subrange(a, b) == t@ && a
                        <= x < b;
                assert(token_hit(text@, t@, x, n + 1int));
            }
        }
    }
}


/// Writes `text` with each maximal run of marked positions wrapped in the
/// highlight codes, so overlapping and adjacent matches never nest.
fn apply_highlights(text: &Vec<char>, mask: &Vec<bool>) -> (out: Vec<char>)
    requires
        mask@.len() == text@.len(),
    ensures
        out@ == marked_text(text@, mask@, text@.len() as int),
{
    let n = text.len();
    let mut out: Vec<char> = Vec::new();
    let mut i: usize = 0;
    while i < n
        invariant
            i <= n == text@.len() == mask@.len(),
            out@ == marked_text(text@, mask@, i as int),
        decreases n - i,
    {
        let ghost before = out@;
        let opens = mask[i] && (i == 0 || !mask[i - 1]);
        if opens {
            extend_str(&mut out, HIGHLIGHT_START);
        }
        out.push(text[i]);
        let closes = mask[i] && (i + 1 == n || !mask[i + 1]);
        if closes {
            extend_str(&mut out, HIGHLIGHT_END);
        }
        assert(out@ =~= before + marked_char(text@, mask@, i as int));
        i = i + 1;
    }
    out
}

/// Wraps every match of `query`'s terms in `display_text` with the
/// highlight codes: substring terms wherever they occur in the
/// ASCII-lowercased text, tag terms only on whole tokens. A query without
/// terms, or one that matches nothing, leaves the text unchanged.
pub fn highlight(display_text: &str, query: &str) -> (out: String)
    ensures
        out@ == highlight_spec(display_text@, query@),
{
    let terms = parse_terms(query);
    let text = to_chars(display_text);
    if terms.len() == 0 {
        return from_chars(text.as_slice());
    }
    let ghost tv = terms_of(query@);
    let lower = ascii_lowercase(text.as_slice());
    let n = text.len();
    let mut mask: Vec<bool> = Vec::new();
    let mut i: usize = 0;
    while i < n
        invariant
            i <= n == text@.len(),
            mask@ == Seq::new(i as nat, |x: int| false),
        decreases n - i,
    {
        mask.push(false);
        i = i + 1;
        assert(mask@ =~= Seq::new(i as nat, |x: int| false));
    }
    let mut k: usize = 0;
    while k < terms.len()
        invariant
            k <= terms@.len() == tv.len(),
            tv == terms_of(query@),
            forall|j: int| 0 <= j < terms@.len() ==> #[trigger] terms@[j].view() == tv[j],
            n == text@.len(),
            lower@ == ascii_lower(text@),
            mask@.len() == n,
            forall|x: int|
                0 <= x < n ==> #[trigger] mask@[x] == exists|j: int|
                    0 <= j < k && covered_by(text@, #[trigger] tv[j], x),
        decreases terms.len() - k,
    {
        let ghost before = mask@;
        let ghost term = tv[k as int];
        match &terms[k] {
            Term::Substring(s) => {
                assert(terms@[k as int].view() == term);
                assert(term == (false, s@));
                if s.len() > 0 {
                    find_all(&mut mask, &lower, s);
                }
                assert forall|x: int| 0 <= x < n implies #[trigger] mask@[x] == (before[x]
                    || covered_by(text@, term, x)) by {}
            },
            Term::Tag(t) => {
                assert(terms@[k as int].view() == term);
                assert(term == (true, t@));
                find_tag_tokens(&mut mask, &text, &lower, t);
                assert forall|x: int| 0 <= x < n implies #[trigger] mask@[x] == (before[x]
                    || covered_by(text@, term, x)) by {
                    if covered_by(text@, term, x) {
                        let (a, b) = choose|a: int, b: int|
                            token_span(text@, a, b) && ascii_lower(text@).subrange(a, b) == term.1
                                && a <= x < b;
                        assert(token_hit(text@, t@, x, n + 1int));
                    }
                    if token_hit(text@, t@, x, n + 1int) {
                        let (a, b) = choose|a: int, b: int|
                            token_span(text@, a, b) && b < n + 1int && ascii_lower(text@).subrange(
                                a,
                                b,
                            ) == t@ && a <= x < b;
                        assert(covered_by(text@, term, x));
                    }
                }
            },
        }
        assert forall|x: int| 0 <= x < n implies #[trigger] mask@[x] == exists|j: int|
            0 <= j < k + 1 && covered_by(text@, #[trigger] tv[j], x) by {
            if exists|j: int| 0 <= j < k + 1 && covered_by(text@, #[trigger] tv[j], x) {
                let j = choose|j: int| 0 <= j < k + 1 && covered_by(text@, #[trigger] tv[j], x);
                if j < k {
                    assert(before[x]);
                }
            }
            if mask@[x] && !before[x] {
                assert(covered_by(text@, tv[k as int], x));
            }
        }
        k = k + 1;
    }
    let ghost cov = Seq::new(n as nat, |x: int| covered(text@, tv, x));
    assert(mask@ =~= cov) by {
        assert forall|x: int| 0 <= x < n implies mask@[x] == cov[x] by {
            if mask@[x] {
                let j = choose|j: int| 0 <= j < tv.len() && covered_by(text@, #[trigger] tv[j], x);
                assert(covered(text@, tv, x));
            }
            if covered(text@, tv, x) {
                let j = choose|j: int| 0 <= j < tv.len() && covered_by(text@, #[trigger] tv[j], x);
                assert(mask@[x]);
            }
        }
    }
    let marked = apply_highlights(&text, &mask);
    from_chars(marked.as_slice())
}

proof fn lemma_unmarked_text(text: Seq<char>, m: Seq<bool>, n: int)
    requires
        0 <= n <= text.len(),
        m.len() == text.len(),
        forall|i: int| 0 <= i < n ==> !m[i],
    ensures
        marked_text(text, m, n) == text.take(n),
    decreases n,
{
    if n > 0 {
        lemma_unmarked_text(text, m, n - 1);
        assert(text.take(n) =~= text.take(n - 1) + seq![text[n - 1]]);
        assert(marked_char(text, m, n - 1) =~= seq![text[n - 1]]);
    }
}

/// A query none of whose terms matches anywhere in the text leaves the
/// text exactly as it was.
pub proof fn lemma_highlight_without_matches(text: Seq<char>, query: Seq<char>)
    requires
        forall|i: int| 0 <= i < text.len() ==> !#[trigger] covered(text, terms_of(query), i),
    ensures
        highlight_spec(text, query) == text,
{
    let terms = terms_of(query);
    if terms.len() > 0 {
        let m = Seq::new(text.len(), |i: int| covered(text, terms, i));
        lemma_unmarked_text(text, m, text.len() as int);
        assert(text.take(text.len() as int) =~= text);
    }
}

proof fn lemma_selected_all_within_any(es: Seq<Entry>, terms: Seq<(bool, Seq<char>)>, now: DateTime)
    requires
        terms.len() > 0,
    ensures
        forall|x: Entry|
            selected(es, terms, true, now).contains(x) ==> #[trigger] selected(
                es,
                terms,
                false,
                now,
            ).contains(x),
    decreases es.len(),
{
    if es.len() > 0 {
        let d = es.drop_last();
        lemma_selected_all_within_any(d, terms, now);
        let sa = selected(es, terms, true, now);
        let sy = selected(es, terms, false, now);
        let sa0 = selected(d, terms, true, now);
        let sy0 = selected(d, terms, false, now);
        if entry_selected(terms, true, es.last(), now) {
            assert(term_matches_entry(terms[0], es.last(), now));
            assert(entry_selected(terms, false, es.last(), now));
            assert(sy == sy0.push(es.last()));
        }
        assert forall|x: Entry| sa.contains(x) implies #[trigger] sy.contains(x) by {
            if entry_selected(terms, false, es.last(), now) {
                assert(sy == sy0.push(es.last()));
                if x == es.last() {
                    assert(sy[sy.len() - 1] == x);
                } else {
                    if entry_selected(terms, true, es.last(), now) {
                        assert(sa == sa0.push(es.last()));
                        let i = choose|i: int| 0 <= i < sa.len() && sa[i] == x;
                        assert(sa0[i] == x);
                    }
                    assert(sa0.contains(x));
                    assert(sy0.contains(x));
                    let j = choose|j: int| 0 <= j < sy0.len() && sy0[j] == x;
                    assert(sy[j] == x);
                }
            } else {
                assert(!entry_selected(terms, true, es.last(), now));
                assert(sa == sa0);
                assert(sy == sy0);
                assert(sy0.contains(x));
            }
        }
    }
}

/// Every entry that a search requiring all terms (`-a/--all`) finds, the
/// same search matching any term finds too.
pub proof fn lemma_search_all_within_any(es: Seq<Entry>, query: Seq<char>, now: DateTime)
    ensures
        forall|x: Entry|
            search_spec(es, query, true, None, now).contains(x) ==> #[trigger] search_spec(
                es,
                query,
                false,
                None,
                now,
            ).contains(x),
{
    if terms_of(query).len() > 0 {
        lemma_selected_all_within_any(es, terms_of(query), now);
    }
}

/// `--limit n` keeps the first `n` results of the same search without a
/// limit, in the same order, and drops the rest.
pub proof fn lemma_search_limit(es: Seq<Entry>, query: Seq<char>, all: bool, n: usize, now: DateTime)
    ensures
        ({
            let whole = search_spec(es, query, all, None, now);
            search_spec(es, query, all, Some(n), now) == if n < whole.len() {
                whole.take(n as int)
            } else {
                whole
            }
        }),
{
}

/// A keyword (substring) term matches a body line of ASCII text exactly
/// when it occurs in the line with its capitals made small, so the line
/// and the same line in capitals are matched alike.
pub proof fn lemma_line_keyword_ignores_case(line: Seq<char>, t: Seq<char>)
    requires
        is_ascii_text(line),
    ensures
        term_matches_line((false, t), line) == contains(ascii_lower(line), t),
        term_matches_line((false, t), line) == term_matches_line((false, t), ascii_upper(line)),
{
    lemma_ascii_upper_then_lower(line);
}

/// A keyword (substring) term matches a whole entry whose on-disk form is
/// ASCII text exactly when it occurs in that form with its capitals made
/// small.
pub proof fn lemma_entry_keyword_ignores_case(e: Entry, now: DateTime, t: Seq<char>)
    requires
        is_ascii_text(render_with(header_text(e, now), e.body@)),
    ensures
        term_matches_entry((false, t), e, now) == contains(ascii_lower(render_with(header_text(e, now), e.body@)), t),
{
}

/// Lines-only matching of a keyword agrees with whole-entry matching: an
/// entry whose body is a line that a keyword term matches is itself found
/// by that term (for an on-disk form of ASCII text).
pub proof fn lemma_line_hit_is_entry_hit(e: Entry, now: DateTime, t: Seq<char>)
    requires
        is_ascii_text(render_with(header_text(e, now), e.body@)),
        term_matches_line((false, t), e.body@),
    ensures
        term_matches_entry((false, t), e, now),
{
    let h = header_text(e, now);
    let b = e.body@;
    let r = render_with(h, b);
    let pre = seq!['['] + h + seq![']', '\n'];
    let off = pre.len() as int;
    if b.len() > 0 {
        assert(r =~= pre + b + seq!['\n'] + seq!['\n']);
        assert forall|k: int| 0 <= k < b.len() implies (#[trigger] b[k] as u32) < 128 by {
            assert(r[off + k] == b[k]);
        }
        let lb = ascii_lower(b);
        let lr = ascii_lower(r);
        let i = choose|i: int| occurs_at(lb, t, i);
        assert(occurs_at(lb, t, i));
        assert(lr.subrange(off + i, off + i + t.len()) =~= lb.subrange(i, i + t.len())) by {
            assert forall|k: int| 0 <= k < t.len() implies #[trigger] lr.subrange(off + i, off + i + t.len())[k]
                == lb.subrange(i, i + t.len())[k] by {
                assert(r[off + i + k] == b[i + k]);
            }
        }
        assert(occurs_at(lr, t, off + i));
    } else {
        assert(ascii_lower(b) =~= Seq::<char>::empty());
        let i = choose|i: int| occurs_at(ascii_lower(b), t, i);
        assert(t.len() == 0);
        assert(ascii_lower(r).subrange(0, 0) =~= t);
        assert(occurs_at(ascii_lower(r), t, 0));
    }
}

/// A tag term matches a body line whose words are ASCII text exactly when
/// one of those words, with its capitals made small, is the term: tags
/// match whole words, whatever their case.
pub proof fn lemma_line_tag_ignores_case(line: Seq<char>, t: Seq<char>)
    requires
        forall|k: int| 0 <= k < words(line).len() ==> is_ascii_text(#[trigger] words(line)[k]),
    ensures
        term_matches_line((true, t), line) == exists|k: int|
            0 <= k < words(line).len() && ascii_lower(#[trigger] words(line)[k]) == t,
{
}

/// A tag term matches an entry whose tags are ASCII text exactly when one
/// of its tags, with its capitals made small, is the term.
pub proof fn lemma_entry_tag_ignores_case(e: Entry, now: DateTime, t: Seq<char>)
    requires
        forall|k: int| 0 <= k < tags_of(e.body@).len() ==> is_ascii_text(#[trigger] tags_of(e.body@)[k]),
    ensures
        term_matches_entry((true, t), e, now) == exists|k: int|
            0 <= k < tags_of(e.body@).len() && ascii_lower(#[trigger] tags_of(e.body@)[k]) == t,
{
}

} // verus!
