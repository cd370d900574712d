//! What `journal -N` and a search print: the last entries of the journal,
//! the displayed entries one after another, the lines-only form of an
//! entry for `-L/--lines-only`, and a search's whole output with its
//! highlighting.
use crate::calendar::{local_now, DateTime};
use crate::entry::{result_view, DisplayError, DisplayOpts, Entry};
use crate::search::{
    highlight, highlight_spec, search_at, search_lines, search_lines_spec, search_spec,
    selected, selected_blocks, terms_of, SearchOptions,
};
use crate::text::{extend_str, from_chars, to_chars};
use vstd::prelude::*;

verus! {

/// How many of `len` entries `-N` shows: `n`, or all of them if there
/// are fewer.
pub open spec fn shown_count(len: nat, n: nat) -> nat {
    if n < len {
        n
    } else {
        len
    }
}

/// The last `n` entries (all of them if there are fewer), oldest first.
pub fn last_entries<'a>(entries: &'a [Entry], n: usize) -> (out: Vec<&'a Entry>)
    ensures
        out@.len() == shown_count(entries@.len(), n as nat),
        forall|k: int|
            0 <= k < out@.len() ==> *(#[trigger] out@[k]) == entries@[entries@.len() - out@.len() + k],
{
    let len: usize = entries.len();
    let start: usize = if n < len {
        len - n
    } else {
        0
    };
    let mut out: Vec<&'a Entry> = Vec::new();
    let mut i: usize = start;
    while i < len
        invariant
            start <= i <= len == entries@.len(),
            start == len - shown_count(len as nat, n as nat),
            out@.len() == i - start,
            forall|k: int| 0 <= k < out@.len() ==> *(#[trigger] out@[k]) == entries@[start + k],
        decreases len - i,
    {
        out.push(&entries[i]);
        i = i + 1;
    }
    out
}

/// The entries behind the references.
pub open spec fn derefs(es: Seq<&Entry>) -> Seq<Entry> {
    Seq::new(es.len(), |k: int| *es[k])
}

/// The entries displayed one after another, or the first error.
pub open spec fn display_all_spec(es: Seq<Entry>, human: bool, format: Seq<char>, diff: crate::entry::DiffStyle, header: bool, now: DateTime) -> Result<Seq<char>, DisplayError>
    decreases es.len(),
{
    if es.len() == 0 {
        Ok(Seq::empty())
    } else {
        match es[0].display_spec(human, format, diff, header, now) {
            Err(e) => Err(e),
            Ok(t) => match display_all_spec(es.drop_first(), human, format, diff, header, now) {
                Err(e) => Err(e),
                Ok(u) => Ok(t + u),
            },
        }
    }
}

/// Each body followed by a line break (nothing for an empty body), one
/// after another.
pub open spec fn bodies(es: Seq<Entry>) -> Seq<char>
    decreases es.len(),
{
    if es.len() == 0 {
        Seq::empty()
    } else {
        (if es[0].body@.len() > 0 {
            es[0].body@ + seq!['\n']
        } else {
            Seq::empty()
        }) + bodies(es.drop_first())
    }
}

/// Without headers, the entries print as their bodies alone, run
/// together with no blank line between them, whatever the display
/// settings and the time.
pub proof fn lemma_no_headers_prints_bodies(es: Seq<Entry>, human: bool, format: Seq<char>, diff: crate::entry::DiffStyle, now: DateTime)
    ensures
        display_all_spec(es, human, format, diff, false, now) == Ok::<Seq<char>, DisplayError>(bodies(es)),
    decreases es.len(),
{
    if es.len() > 0 {
        lemma_no_headers_prints_bodies(es.drop_first(), human, format, diff, now);
        let b = if es[0].body@.len() > 0 {
            es[0].body@ + seq!['\n']
        } else {
            Seq::<char>::empty()
        };
        assert(Seq::<char>::empty() + b + Seq::<char>::empty() =~= b);
    }
}

/// The given entries displayed one after another when `now` is the
/// current date and time.
pub fn display_all_at(entries: &[&Entry], opts: &DisplayOpts, now: DateTime) -> (res: Result<String, DisplayError>)
    requires
        now.wf(),
        forall|i: int| 0 <= i < entries@.len() ==> (*#[trigger] entries@[i]).wf(),
    ensures
        result_view(res) == display_all_spec(derefs(entries@), opts.human, opts.format@, opts.diff, opts.header, now),
        opts.format@ == "%Y-%m-%d %H:%M"@ ==> res is Ok,
{
    let ghost s = derefs(entries@);
    let ghost spec_all = display_all_spec(s, opts.human, opts.format@, opts.diff, opts.header, now);
    let mut out: Vec<char> = Vec::new();
    let mut i: usize = 0;
    assert(s.skip(0) =~= s);
    while i < entries.len()
        invariant
            i <= entries@.len() == s.len(),
            s == derefs(entries@),
            now.wf(),
            forall|j: int| 0 <= j < entries@.len() ==> (*#[trigger] entries@[j]).wf(),
            spec_all == display_all_spec(s, opts.human, opts.format@, opts.diff, opts.header, now),
            match display_all_spec(s.skip(i as int), opts.human, opts.format@, opts.diff, opts.header, now) {
                Err(e) => spec_all == Err::<Seq<char>, DisplayError>(e),
                Ok(u) => spec_all == Ok::<Seq<char>, DisplayError>(out@ + u),
            },
        decreases entries.len() - i,
    {
        assert(s.skip(i as int).drop_first() =~= s.skip(i + 1));
        assert(s.skip(i as int)[0] == *entries@[i as int]);
        match entries[i].display_at(opts, now) {
            Err(e) => {
                return Err(e);
            },
            Ok(t) => {
                let ghost before = out@;
                extend_str(&mut out, t.as_str());
                proof {
                    match display_all_spec(s.skip(i + 1), opts.human, opts.format@, opts.diff, opts.header, now) {
                        Err(e) => {},
                        Ok(u) => {
                            assert(before + (t@ + u) =~= out@ + u);
                        },
                    }
                }
            },
        }
        i = i + 1;
    }
    assert(out@ + Seq::<char>::empty() =~= out@);
    Ok(from_chars(out.as_slice()))
}

/// The given entries displayed one after another (`journal -N`).
pub fn display_all(entries: &[&Entry], opts: &DisplayOpts) -> (res: Result<String, DisplayError>)
    requires
        forall|i: int| 0 <= i < entries@.len() ==> (*#[trigger] entries@[i]).wf(),
    ensures
        exists|now: DateTime|
            now.wf() && result_view(res) == display_all_spec(
                derefs(entries@),
                opts.human,
                opts.format@,
                opts.diff,
                opts.header,
                now,
            ),
        opts.format@ == "%Y-%m-%d %H:%M"@ ==> res is Ok,
{
    let now = local_now();
    display_all_at(entries, opts, now)
}

/// The characters of each string.
pub open spec fn string_views(ss: Seq<String>) -> Seq<Seq<char>> {
    Seq::new(ss.len(), |k: int| ss[k]@)
}

/// Each line followed by a line break.
pub open spec fn line_block(ls: Seq<Seq<char>>) -> Seq<char>
    decreases ls.len(),
{
    if ls.len() == 0 {
        Seq::empty()
    } else {
        line_block(ls.drop_last()) + ls.last() + seq!['\n']
    }
}

/// The lines-only form of an entry: its header line, each of `lines` on
/// a line of its own, and -- with headers -- the blank line that
/// separates it from the next.
pub open spec fn display_lines_spec(e: Entry, lines: Seq<Seq<char>>, human: bool, format: Seq<char>, diff: crate::entry::DiffStyle, header: bool, now: DateTime) -> Result<Seq<char>, DisplayError> {
    match e.header_spec(human, format, diff, header, now) {
        Err(err) => Err(err),
        Ok(h) => Ok(h + line_block(lines) + (if header {
            seq!['\n']
        } else {
            Seq::empty()
        })),
    }
}

/// The lines-only form of `entry` with the given (matched) lines, when
/// `now` is the current date and time.
pub fn display_lines_at(entry: &Entry, lines: &[String], opts: &DisplayOpts, now: DateTime) -> (res: Result<String, DisplayError>)
    requires
        entry.wf(),
        now.wf(),
    ensures
        result_view(res) == display_lines_spec(*entry, string_views(lines@), opts.human, opts.format@, opts.diff, opts.header, now),
        opts.format@ == "%Y-%m-%d %H:%M"@ ==> res is Ok,
{
    match entry.display_header_at(opts, now) {
        Err(e) => Err(e),
        Ok(h) => {
            let mut out = to_chars(h.as_str());
            let ghost ls = string_views(lines@);
            let mut i: usize = 0;
            assert(ls.take(0) =~= Seq::<Seq<char>>::empty());
            while i < lines.len()
                invariant
                    i <= lines@.len() == ls.len(),
                    ls == string_views(lines@),
                    out@ == h@ + line_block(ls.take(i as int)),
                decreases lines.len() - i,
            {
                extend_str(&mut out, lines[i].as_str());
                out.push('\n');
                assert(ls.take(i + 1).drop_last() =~= ls.take(i as int));
                assert(out@ =~= h@ + line_block(ls.take(i + 1)));
                i = i + 1;
            }
            assert(ls.take(ls.len() as int) =~= ls);
            if opts.header {
                out.push('\n');
            }
            assert(out@ =~= h@ + line_block(ls) + (if opts.header {
                seq!['\n']
            } else {
                Seq::empty()
            }));
            Ok(from_chars(out.as_slice()))
        },
    }
}

/// `s`, with the matches of `query` highlighted when `color` is on.
#[verifier::opaque]
pub open spec fn painted(s: Seq<char>, query: Seq<char>, color: bool) -> Seq<char> {
    if color {
        highlight_spec(s, query)
    } else {
        s
    }
}

/// Each line, painted.
pub open spec fn painted_lines(ls: Seq<Seq<char>>, query: Seq<char>, color: bool) -> Seq<Seq<char>> {
    Seq::new(ls.len(), |k: int| painted(ls[k], query, color))
}

/// The matched entries displayed and painted one after another, or the
/// first error.
pub open spec fn matches_spec(es: Seq<Entry>, query: Seq<char>, color: bool, human: bool, format: Seq<char>, diff: crate::entry::DiffStyle, header: bool, now: DateTime) -> Result<Seq<char>, DisplayError>
    decreases es.len(),
{
    if es.len() == 0 {
        Ok(Seq::empty())
    } else {
        match es[0].display_spec(human, format, diff, header, now) {
            Err(e) => Err(e),
            Ok(t) => match matches_spec(es.drop_first(), query, color, human, format, diff, header, now) {
                Err(e) => Err(e),
                Ok(u) => Ok(painted(t, query, color) + u),
            },
        }
    }
}

/// The lines-only blocks of the matched entries, their lines painted,
/// one after another, or the first error.
pub open spec fn line_matches_spec(bs: Seq<(Entry, Seq<Seq<char>>)>, query: Seq<char>, color: bool, human: bool, format: Seq<char>, diff: crate::entry::DiffStyle, header: bool, now: DateTime) -> Result<Seq<char>, DisplayError>
    decreases bs.len(),
{
    if bs.len() == 0 {
        Ok(Seq::empty())
    } else {
        match display_lines_spec(bs[0].0, painted_lines(bs[0].1, query, color), human, format, diff, header, now) {
            Err(e) => Err(e),
            Ok(t) => match line_matches_spec(bs.drop_first(), query, color, human, format, diff, header, now) {
                Err(e) => Err(e),
                Ok(u) => Ok(t + u),
            },
        }
    }
}

/// What a search prints, with how many entries matched (the search
/// fails when none did): the matched entries -- or, lines-only, their
/// matched lines under their headers -- with the matches highlighted
/// when `color` is on.
pub open spec fn search_output_spec(es: Seq<Entry>, query: Seq<char>, all: bool, limit: Option<usize>, lines_only: bool, color: bool, human: bool, format: Seq<char>, diff: crate::entry::DiffStyle, header: bool, now: DateTime) -> Result<(nat, Seq<char>), DisplayError> {
    if lines_only {
        let bs = search_lines_spec(es, query, all, limit);
        match line_matches_spec(bs, query, color, human, format, diff, header, now) {
            Err(e) => Err(e),
            Ok(s) => Ok((bs.len(), s)),
        }
    } else {
        let sel = search_spec(es, query, all, limit, now);
        match matches_spec(sel, query, color, human, format, diff, header, now) {
            Err(e) => Err(e),
            Ok(s) => Ok((sel.len(), s)),
        }
    }
}

/// The count and characters of a search's printed output, or the error.
pub open spec fn output_view(r: Result<(usize, String), DisplayError>) -> Result<(nat, Seq<char>), DisplayError> {
    match r {
        Ok((n, s)) => Ok((n as nat, s@)),
        Err(e) => Err(e),
    }
}

proof fn lemma_selected_wf(es: Seq<Entry>, terms: Seq<(bool, Seq<char>)>, all: bool, now: DateTime)
    requires
        forall|i: int| 0 <= i < es.len() ==> (#[trigger] es[i]).wf(),
    ensures
        forall|k: int| 0 <= k < selected(es, terms, all, now).len() ==> (#[trigger] selected(es, terms, all, now)[k]).wf(),
    decreases es.len(),
{
    if es.len() > 0 {
        let prev = selected(es.drop_last(), terms, all, now);
        assert forall|i: int| 0 <= i < es.drop_last().len() implies (#[trigger] es.drop_last()[i]).wf() by {
            assert(es.drop_last()[i] == es[i]);
        }
        lemma_selected_wf(es.drop_last(), terms, all, now);
        assert(es.last() == es[es.len() - 1]);
        assert forall|k: int| 0 <= k < selected(es, terms, all, now).len() implies (#[trigger] selected(es, terms, all, now)[k]).wf() by {
            if k < prev.len() {
                assert(selected(es, terms, all, now)[k] == prev[k]);
            }
        }
    }
}

proof fn lemma_selected_blocks_wf(es: Seq<Entry>, terms: Seq<(bool, Seq<char>)>, all: bool)
    requires
        forall|i: int| 0 <= i < es.len() ==> (#[trigger] es[i]).wf(),
    ensures
        forall|k: int| 0 <= k < selected_blocks(es, terms, all).len() ==> (#[trigger] selected_blocks(es, terms, all)[k]).0.wf(),
    decreases es.len(),
{
    if es.len() > 0 {
        let prev = selected_blocks(es.drop_last(), terms, all);
        assert forall|i: int| 0 <= i < es.drop_last().len() implies (#[trigger] es.drop_last()[i]).wf() by {
            assert(es.drop_last()[i] == es[i]);
        }
        lemma_selected_blocks_wf(es.drop_last(), terms, all);
        assert(es.last() == es[es.len() - 1]);
        assert forall|k: int| 0 <= k < selected_blocks(es, terms, all).len() implies (#[trigger] selected_blocks(es, terms, all)[k]).0.wf() by {
            if k < prev.len() {
                assert(selected_blocks(es, terms, all)[k] == prev[k]);
            }
        }
    }
}

/// `s`, with the matches of `query` highlighted when `color` is on.
fn paint(s: String, query: &str, color: bool) -> (out: String)
    ensures
        out@ == painted(s@, query@, color),
{
    reveal(painted);
    if color {
        highlight(s.as_str(), query)
    } else {
        s
    }
}

/// The matched entries displayed and painted one after another.
fn matches_output(entries: &[&Entry], query: &str, color: bool, opts: &DisplayOpts, now: DateTime) -> (res: Result<String, DisplayError>)
    requires
        now.wf(),
        forall|i: int| 0 <= i < entries@.len() ==> (*#[trigger] entries@[i]).wf(),
    ensures
        result_view(res) == matches_spec(derefs(entries@), query@, color, opts.human, opts.format@, opts.diff, opts.header, now),
        opts.format@ == "%Y-%m-%d %H:%M"@ ==> res is Ok,
{
    let ghost s = derefs(entries@);
    let ghost spec_all = matches_spec(s, query@, color, opts.human, opts.format@, opts.diff, opts.header, now);
    let mut out: Vec<char> = Vec::new();
    let mut i: usize = 0;
    assert(s.skip(0) =~= s);
    while i < entries.len()
        invariant
            i <= entries@.len() == s.len(),
            s == derefs(entries@),
            now.wf(),
            forall|j: int| 0 <= j < entries@.len() ==> (*#[trigger] entries@[j]).wf(),
            spec_all == matches_spec(s, query@, color, opts.human, opts.format@, opts.diff, opts.header, now),
            match matches_spec(s.skip(i as int), query@, color, opts.human, opts.format@, opts.diff, opts.header, now) {
                Err(e) => spec_all == Err::<Seq<char>, DisplayError>(e),
                Ok(u) => spec_all == Ok::<Seq<char>, DisplayError>(out@ + u),
            },
        decreases entries.len() - i,
    {
        assert(s.skip(i as int).drop_first() =~= s.skip(i + 1));
        assert(s.skip(i as int)[0] == *entries@[i as int]);
        match entries[i].display_at(opts, now) {
            Err(e) => {
                return Err(e);
            },
            Ok(t) => {
                let p = paint(t, query, color);
                let ghost before = out@;
                extend_str(&mut out, p.as_str());
                proof {
                    match matches_spec(s.skip(i + 1), query@, color, opts.human, opts.format@, opts.diff, opts.header, now) {
                        Err(e) => {},
                        Ok(u) => {
                            assert(before + (p@ + u) =~= out@ + u);
                        },
                    }
                }
            },
        }
        i = i + 1;
    }
    assert(out@ + Seq::<char>::empty() =~= out@);
    Ok(from_chars(out.as_slice()))
}

/// Each line, painted.
fn paint_lines(lines: &[String], query: &str, color: bool) -> (out: Vec<String>)
    ensures
        string_views(out@) == painted_lines(string_views(lines@), query@, color),
{
    let mut out: Vec<String> = Vec::new();
    let mut j: usize = 0;
    while j < lines.len()
        invariant
            j <= lines@.len(),
            out@.len() == j,
            forall|k: int| 0 <= k < j ==> (#[trigger] out@[k])@ == painted(lines@[k]@, query@, color),
        decreases lines.len() - j,
    {
        out.push(paint(lines[j].clone(), query, color));
        j = j + 1;
    }
    assert(string_views(out@) =~= painted_lines(string_views(lines@), query@, color));
    out
}

/// The blocks behind the references.
pub open spec fn block_views(bs: Seq<(&Entry, Vec<String>)>) -> Seq<(Entry, Seq<Seq<char>>)> {
    Seq::new(bs.len(), |k: int| (*bs[k].0, string_views(bs[k].1@)))
}

/// The lines-only blocks one after another, their lines painted.
fn line_matches_output(blocks: &[(&Entry, Vec<String>)], query: &str, color: bool, opts: &DisplayOpts, now: DateTime) -> (res: Result<String, DisplayError>)
    requires
        now.wf(),
        forall|i: int| 0 <= i < blocks@.len() ==> (*(#[trigger] blocks@[i]).0).wf(),
    ensures
        result_view(res) == line_matches_spec(block_views(blocks@), query@, color, opts.human, opts.format@, opts.diff, opts.header, now),
        opts.format@ == "%Y-%m-%d %H:%M"@ ==> res is Ok,
{
    let ghost s = block_views(blocks@);
    let ghost spec_all = line_matches_spec(s, query@, color, opts.human, opts.format@, opts.diff, opts.header, now);
    let mut out: Vec<char> = Vec::new();
    let mut i: usize = 0;
    assert(s.skip(0) =~= s);
    while i < blocks.len()
        invariant
            i <= blocks@.len() == s.len(),
            s == block_views(blocks@),
            now.wf(),
            forall|j: int| 0 <= j < blocks@.len() ==> (*(#[trigger] blocks@[j]).0).wf(),
            spec_all == line_matches_spec(s, query@, color, opts.human, opts.format@, opts.diff, opts.header, now),
            match line_matches_spec(s.skip(i as int), query@, color, opts.human, opts.format@, opts.diff, opts.header, now) {
                Err(e) => spec_all == Err::<Seq<char>, DisplayError>(e),
                Ok(u) => spec_all == Ok::<Seq<char>, DisplayError>(out@ + u),
            },
        decreases blocks.len() - i,
    {
        assert(s.skip(i as int).drop_first() =~= s.skip(i + 1));
        assert(s.skip(i as int)[0] == s[i as int]);
        let ps = paint_lines(blocks[i].1.as_slice(), query, color);
        match display_lines_at(blocks[i].0, ps.as_slice(), opts, now) {
            Err(e) => {
                return Err(e);
            },
            Ok(t) => {
                let ghost before = out@;
                extend_str(&mut out, t.as_str());
                proof {
                    match line_matches_spec(s.skip(i + 1), query@, color, opts.human, opts.format@, opts.diff, opts.header, now) {
                        Err(e) => {},
                        Ok(u) => {
                            assert(before + (t@ + u) =~= out@ + u);
                        },
                    }
                }
            },
        }
        i = i + 1;
    }
    assert(out@ + Seq::<char>::empty() =~= out@);
    Ok(from_chars(out.as_slice()))
}

/// What a search prints when `now` is the current date and time, with
/// how many entries matched: the matched entries (or, lines-only, their
/// matched lines under their headers), highlighted when `color` is on.
pub fn search_output_at(entries: &[Entry], query: &str, opts: &SearchOptions, lines_only: bool, color: bool, dopts: &DisplayOpts, now: DateTime) -> (res: Result<(usize, String), DisplayError>)
    requires
        now.wf(),
        forall|i: int| 0 <= i < entries@.len() ==> (#[trigger] entries@[i]).wf(),
    ensures
        output_view(res) == search_output_spec(entries@, query@, opts.all, opts.limit, lines_only, color, dopts.human, dopts.format@, dopts.diff, dopts.header, now),
        dopts.format@ == "%Y-%m-%d %H:%M"@ ==> res is Ok,
{
    if lines_only {
        let blocks = search_lines(entries, query, opts);
        let ghost want = search_lines_spec(entries@, query@, opts.all, opts.limit);
        proof {
            lemma_selected_blocks_wf(entries@, terms_of(query@), opts.all);
            assert forall|i: int| 0 <= i < blocks@.len() implies (*(#[trigger] blocks@[i]).0).wf() by {
                assert(*blocks@[i].0 == want[i].0);
                if terms_of(query@).len() > 0 {
                    let sb = selected_blocks(entries@, terms_of(query@), opts.all);
                    assert(want[i] == sb[i]);
                }
            }
            assert forall|k: int| 0 <= k < blocks@.len() implies #[trigger] block_views(blocks@)[k] == want[k] by {
                assert(string_views(blocks@[k].1@) =~= want[k].1);
            }
            assert(block_views(blocks@) =~= want);
        }
        match line_matches_output(blocks.as_slice(), query, color, dopts, now) {
            Err(e) => Err(e),
            Ok(s) => Ok((blocks.len(), s)),
        }
    } else {
        let results = search_at(entries, query, opts, now);
        let ghost want = search_spec(entries@, query@, opts.all, opts.limit, now);
        proof {
            lemma_selected_wf(entries@, terms_of(query@), opts.all, now);
            assert forall|i: int| 0 <= i < results@.len() implies (*#[trigger] results@[i]).wf() by {
                if terms_of(query@).len() > 0 {
                    let sl = selected(entries@, terms_of(query@), opts.all, now);
                    assert(want[i] == sl[i]);
                }
            }
            assert(derefs(results@) =~= want);
        }
        match matches_output(results.as_slice(), query, color, dopts, now) {
            Err(e) => Err(e),
            Ok(s) => Ok((results.len(), s)),
        }
    }
}

/// What a search prints, with how many entries matched: the matched
/// entries (or, lines-only, their matched lines under their headers),
/// highlighted when `color` is on.
pub fn search_output(entries: &[Entry], query: &str, opts: &SearchOptions, lines_only: bool, color: bool, dopts: &DisplayOpts) -> (res: Result<(usize, String), DisplayError>)
    requires
        forall|i: int| 0 <= i < entries@.len() ==> (#[trigger] entries@[i]).wf(),
    ensures
        exists|now: DateTime|
            now.wf() && output_view(res) == search_output_spec(
                entries@,
                query@,
                opts.all,
                opts.limit,
                lines_only,
                color,
                dopts.human,
                dopts.format@,
                dopts.diff,
                dopts.header,
                now,
            ),
        dopts.format@ == "%Y-%m-%d %H:%M"@ ==> res is Ok,
{
    let now = local_now();
    search_output_at(entries, query, opts, lines_only, color, dopts, now)
}

} // verus!
