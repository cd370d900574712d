//! Every tag of a journal with how often it occurs (`--all-tags`): the
//! distinct bare tags in sorted order, each with its count, and the
//! listing with the counts right-aligned.
use crate::entry::{is_tag, tag_words, tags_of, Entry};
use crate::text::{decimal, extend_chars, extend_str, from_chars, push_decimal, to_chars};
use vstd::prelude::*;

verus! {

/// `a` sorts strictly before `b`, character by character, a proper
/// prefix first (the order of `str`'s `Ord`).
pub open spec fn lex_lt(a: Seq<char>, b: Seq<char>) -> bool
    decreases a.len(),
{
    if a.len() == 0 {
        b.len() > 0
    } else if b.len() == 0 {
        false
    } else if a[0] != b[0] {
        a[0] < b[0]
    } else {
        lex_lt(a.drop_first(), b.drop_first())
    }
}

proof fn lemma_lex_irreflexive(a: Seq<char>)
    ensures
        !lex_lt(a, a),
    decreases a.len(),
{
    if a.len() > 0 {
        lemma_lex_irreflexive(a.drop_first());
    }
}

proof fn lemma_lex_transitive(a: Seq<char>, b: Seq<char>, c: Seq<char>)
    requires
        lex_lt(a, b),
        lex_lt(b, c),
    ensures
        lex_lt(a, c),
    decreases a.len(),
{
    if a.len() > 0 && b.len() > 0 && c.len() > 0 && a[0] == b[0] && b[0] == c[0] {
        lemma_lex_transitive(a.drop_first(), b.drop_first(), c.drop_first());
    }
}

proof fn lemma_lex_total(a: Seq<char>, b: Seq<char>)
    ensures
        lex_lt(a, b) || a == b || lex_lt(b, a),
    decreases a.len(),
{
    if a.len() > 0 && b.len() > 0 && a[0] == b[0] {
        lemma_lex_total(a.drop_first(), b.drop_first());
        if a.drop_first() == b.drop_first() {
            assert(a =~= seq![a[0]] + a.drop_first());
            assert(b =~= seq![b[0]] + b.drop_first());
        }
    } else if a.len() == 0 && b.len() == 0 {
        assert(a =~= b);
    }
}

/// The tag without its leading `@`.
pub open spec fn bare(tag: Seq<char>) -> Seq<char> {
    tag.drop_first()
}

/// The bare tags of one entry, in the order they appear.
pub open spec fn bare_tags(e: Entry) -> Seq<Seq<char>> {
    Seq::new(tags_of(e.body@).len(), |k: int| bare(tags_of(e.body@)[k]))
}

/// The bare tags of all the entries, in order.
pub open spec fn journal_tags(es: Seq<Entry>) -> Seq<Seq<char>>
    decreases es.len(),
{
    if es.len() == 0 {
        Seq::empty()
    } else {
        journal_tags(es.drop_last()) + bare_tags(es.last())
    }
}

/// How many times `t` occurs in `s`.
pub open spec fn occurrences(s: Seq<Seq<char>>, t: Seq<char>) -> nat
    decreases s.len(),
{
    if s.len() == 0 {
        0
    } else {
        occurrences(s.drop_last(), t) + if s.last() == t {
            1nat
        } else {
            0nat
        }
    }
}

/// `r` lists the distinct items of `all` in strictly increasing order,
/// each with the number of times it occurs.
pub open spec fn is_tag_count(r: Seq<(Seq<char>, nat)>, all: Seq<Seq<char>>) -> bool {
    &&& forall|i: int, j: int| 0 <= i < j < r.len() ==> lex_lt(#[trigger] r[i].0, #[trigger] r[j].0)
    &&& forall|k: int|
        0 <= k < r.len() ==> all.contains(#[trigger] r[k].0) && r[k].1 == occurrences(all, r[k].0)
    &&& forall|t: Seq<char>| #[trigger] all.contains(t) ==> exists|k: int| 0 <= k < r.len() && r[k].0 == t
}

/// The names and counts as plain values.
pub open spec fn count_view(names: Seq<Vec<char>>, counts: Seq<usize>) -> Seq<(Seq<char>, nat)> {
    Seq::new(names.len(), |k: int| (names[k]@, counts[k] as nat))
}

/// The tag counts as plain values.
pub open spec fn counts_view(c: Seq<(String, usize)>) -> Seq<(Seq<char>, nat)> {
    Seq::new(c.len(), |k: int| (c[k].0@, c[k].1 as nat))
}

proof fn lemma_occurrences_push(s: Seq<Seq<char>>, t: Seq<char>, x: Seq<char>)
    ensures
        occurrences(s.push(t), x) == occurrences(s, x) + if x == t {
            1nat
        } else {
            0nat
        },
        occurrences(s, x) <= s.len(),
    decreases s.len(),
{
    assert(s.push(t).drop_last() =~= s);
    if s.len() > 0 {
        lemma_occurrences_push(s.drop_last(), s.last(), x);
        assert(s.drop_last().push(s.last()) =~= s);
    }
}

/// Adds one occurrence of `t` to the sorted names and their counts.
fn insert_tag(names: &mut Vec<Vec<char>>, counts: &mut Vec<usize>, t: Vec<char>, done: Ghost<Seq<Seq<char>>>)
    requires
        old(names)@.len() == old(counts)@.len(),
        is_tag_count(count_view(old(names)@, old(counts)@), done@),
        done@.len() < usize::MAX,
    ensures
        final(names)@.len() == final(counts)@.len(),
        is_tag_count(count_view(final(names)@, final(counts)@), done@.push(t@)),
{
    let ghost d2 = done@.push(t@);
    let ghost r0 = count_view(names@, counts@);
    let n: usize = names.len();
    let mut p: usize = 0;
    while p < n && lex_less(&names[p], &t)
        invariant
            p <= n == names@.len() == counts@.len(),
            r0 == count_view(names@, counts@),
            forall|i: int| 0 <= i < p ==> lex_lt(#[trigger] names@[i]@, t@),
        decreases n - p,
    {
        p = p + 1;
    }
    proof {
        assert forall|x: Seq<char>| #[trigger] d2.contains(x) <==> done@.contains(x) || x == t@ by {
            if d2.contains(x) {
                let i = choose|i: int| 0 <= i < d2.len() && d2[i] == x;
                if i < done@.len() {
                    assert(done@[i] == x);
                }
            }
            if done@.contains(x) {
                let i = choose|i: int| 0 <= i < done@.len() && done@[i] == x;
                assert(d2[i] == x);
            }
            if x == t@ {
                assert(d2[done@.len() as int] == x);
            }
        }
        assert forall|x: Seq<char>| true implies occurrences(d2, x) == occurrences(done@, x) + if x
            == t@ {
            1nat
        } else {
            0nat
        } && occurrences(done@, x) <= done@.len() by {
            lemma_occurrences_push(done@, t@, x);
        }
    }
    if p < n && chars_equal(&names[p], &t) {
        proof {
            assert(r0[p as int].0 == t@);
            assert(r0[p as int].1 == occurrences(done@, t@));
            lemma_occurrences_push(done@, t@, t@);
        }
        let c: usize = counts[p];
        counts.set(p, c + 1);
        proof {
            let r = count_view(names@, counts@);
            assert forall|k: int| 0 <= k < r.len() implies d2.contains(#[trigger] r[k].0)
                && r[k].1 == occurrences(d2, r[k].0) by {
                assert(r0[k].0 == r[k].0);
                if k != p {
                    assert(r[k].0 != t@) by {
                        if k < p {
                            lemma_lex_irreflexive(t@);
                        } else {
                            assert(lex_lt(r0[p as int].0, r0[k].0));
                            lemma_lex_irreflexive(t@);
                        }
                    }
                }
            }
            assert forall|i: int, j: int| 0 <= i < j < r.len() implies lex_lt(
                #[trigger] r[i].0,
                #[trigger] r[j].0,
            ) by {
                assert(r[i].0 == r0[i].0 && r[j].0 == r0[j].0);
            }
            assert forall|x: Seq<char>| #[trigger] d2.contains(x) implies exists|k: int|
                0 <= k < r.len() && r[k].0 == x by {
                if x == t@ {
                    assert(r[p as int].0 == x);
                } else {
                    let k = choose|k: int| 0 <= k < r0.len() && r0[k].0 == x;
                    assert(r[k].0 == x);
                }
            }
        }
    } else {
        proof {
            if p < n {
                lemma_lex_total(names@[p as int]@, t@);
            }
            assert(!done@.contains(t@)) by {
                if done@.contains(t@) {
                    let k = choose|k: int| 0 <= k < r0.len() && r0[k].0 == t@;
                    if k < p {
                        lemma_lex_irreflexive(t@);
                    } else if k > p {
                        lemma_lex_transitive(t@, r0[p as int].0, r0[k].0);
                        lemma_lex_irreflexive(t@);
                    }
                }
            }
            assert(occurrences(done@, t@) == 0) by {
                lemma_occurrences_zero(done@, t@);
            }
        }
        names.insert(p, t);
        counts.insert(p, 1);
        proof {
            let r = count_view(names@, counts@);
            assert forall|k: int| 0 <= k < r.len() implies d2.contains(#[trigger] r[k].0)
                && r[k].1 == occurrences(d2, r[k].0) by {
                if k < p {
                    assert(r[k] == r0[k]);
                    lemma_lex_irreflexive(t@);
                } else if k > p {
                    assert(r[k] == r0[k - 1]);
                    if r0[k - 1].0 == t@ {
                        assert(done@.contains(t@));
                    }
                }
            }
            assert forall|i: int, j: int| 0 <= i < j < r.len() implies lex_lt(
                #[trigger] r[i].0,
                #[trigger] r[j].0,
            ) by {
                if j < p {
                    assert(r[i] == r0[i] && r[j] == r0[j]);
                } else if j == p {
                    assert(r[i] == r0[i]);
                } else if i > p {
                    assert(r[i] == r0[i - 1] && r[j] == r0[j - 1]);
                } else if i == p {
                    assert(r[j] == r0[j - 1]);
                    if j - 1 > p {
                        lemma_lex_transitive(t@, r0[p as int].0, r0[j - 1].0);
                    }
                } else {
                    assert(r[i] == r0[i] && r[j] == r0[j - 1]);
                }
            }
            assert forall|x: Seq<char>| #[trigger] d2.contains(x) implies exists|k: int|
                0 <= k < r.len() && r[k].0 == x by {
                if x == t@ {
                    assert(r[p as int].0 == x);
                } else {
                    let k = choose|k: int| 0 <= k < r0.len() && r0[k].0 == x;
                    if k < p {
                        assert(r[k].0 == x);
                    } else {
                        assert(r[k + 1].0 == x);
                    }
                }
            }
        }
    }
}

proof fn lemma_occurrences_zero(s: Seq<Seq<char>>, t: Seq<char>)
    requires
        !s.contains(t),
    ensures
        occurrences(s, t) == 0,
    decreases s.len(),
{
    if s.len() > 0 {
        assert(!s.drop_last().contains(t)) by {
            if s.drop_last().contains(t) {
                let i = choose|i: int| 0 <= i < s.drop_last().len() && s.drop_last()[i] == t;
                assert(s[i] == t);
            }
        }
        lemma_occurrences_zero(s.drop_last(), t);
        assert(s[s.len() - 1] != t);
    }
}

/// Whether `a` sorts strictly before `b`.
fn lex_less(a: &Vec<char>, b: &Vec<char>) -> (r: bool)
    ensures
        r == lex_lt(a@, b@),
{
    let mut i: usize = 0;
    assert(a@.skip(0) =~= a@ && b@.skip(0) =~= b@);
    while i < a.len() && i < b.len() && a[i] == b[i]
        invariant
            i <= a@.len(),
            i <= b@.len(),
            lex_lt(a@, b@) == lex_lt(a@.skip(i as int), b@.skip(i as int)),
        decreases a.len() - i,
    {
        proof {
            assert(a@.skip(i as int).drop_first() =~= a@.skip(i + 1));
            assert(b@.skip(i as int).drop_first() =~= b@.skip(i + 1));
        }
        i = i + 1;
    }
    if i == a.len() {
        i < b.len()
    } else if i == b.len() {
        false
    } else {
        a[i] < b[i]
    }
}

/// Whether `a` and `b` hold the same characters.
fn chars_equal(a: &Vec<char>, b: &Vec<char>) -> (r: bool)
    ensures
        r == (a@ == b@),
{
    crate::text::chars_eq(a.as_slice(), b.as_slice())
}

proof fn lemma_tag_words_are_tags(ws: Seq<Seq<char>>)
    ensures
        forall|k: int| 0 <= k < tag_words(ws).len() ==> is_tag(#[trigger] tag_words(ws)[k]),
    decreases ws.len(),
{
    if ws.len() > 0 {
        lemma_tag_words_are_tags(ws.drop_last());
        let prev = tag_words(ws.drop_last());
        assert forall|k: int| 0 <= k < tag_words(ws).len() implies is_tag(#[trigger] tag_words(ws)[k]) by {
            if k < prev.len() {
                assert(tag_words(ws)[k] == prev[k]);
            }
        }
    }
}

proof fn lemma_journal_tags_prefix(es: Seq<Entry>, i: int)
    requires
        0 <= i < es.len(),
    ensures
        journal_tags(es.take(i + 1)) == journal_tags(es.take(i)) + bare_tags(es[i]),
        journal_tags(es.take(i + 1)).len() <= journal_tags(es).len(),
    decreases es.len() - i,
{
    assert(es.take(i + 1).drop_last() =~= es.take(i));
    if i + 1 < es.len() {
        lemma_journal_tags_prefix(es, i + 1);
    } else {
        assert(es.take(i + 1) =~= es);
    }
}

/// Every distinct bare tag of the journal, in sorted order, with the
/// number of times it occurs over all the entries.
pub fn tag_counts(entries: &[Entry]) -> (out: Vec<(String, usize)>)
    requires
        journal_tags(entries@).len() <= usize::MAX,
    ensures
        is_tag_count(counts_view(out@), journal_tags(entries@)),
{
    let mut names: Vec<Vec<char>> = Vec::new();
    let mut counts: Vec<usize> = Vec::new();
    let mut i: usize = 0;
    assert(entries@.take(0) =~= Seq::<Entry>::empty());
    while i < entries.len()
        invariant
            i <= entries@.len(),
            names@.len() == counts@.len(),
            journal_tags(entries@).len() <= usize::MAX,
            is_tag_count(count_view(names@, counts@), journal_tags(entries@.take(i as int))),
        decreases entries.len() - i,
    {
        let ts = entries[i].tags();
        let ghost before = journal_tags(entries@.take(i as int));
        let ghost bt = bare_tags(entries@[i as int]);
        proof {
            lemma_journal_tags_prefix(entries@, i as int);
            lemma_tag_words_are_tags(crate::text::words(entries@[i as int].body@));
        }
        let mut j: usize = 0;
        assert(before + bt.take(0) =~= before);
        while j < ts.len()
            invariant
                j <= ts@.len() == bt.len(),
                forall|k: int| 0 <= k < ts@.len() ==> #[trigger] ts@[k]@ == tags_of(entries@[i as int].body@)[k],
                forall|k: int| 0 <= k < ts@.len() ==> is_tag(#[trigger] tags_of(entries@[i as int].body@)[k]),
                bt == bare_tags(entries@[i as int]),
                names@.len() == counts@.len(),
                before.len() + bt.len() <= usize::MAX,
                is_tag_count(count_view(names@, counts@), before + bt.take(j as int)),
            decreases ts.len() - j,
        {
            let mut cs = to_chars(ts[j].as_str());
            assert(is_tag(tags_of(entries@[i as int].body@)[j as int]));
            cs.remove(0);
            proof {
                assert(cs@ =~= bt[j as int]);
                assert((before + bt.take(j as int)).push(cs@) =~= before + bt.take(j + 1));
            }
            insert_tag(&mut names, &mut counts, cs, Ghost(before + bt.take(j as int)));
            j = j + 1;
        }
        assert(bt.take(bt.len() as int) =~= bt);
        i = i + 1;
    }
    assert(entries@.take(entries@.len() as int) =~= entries@);
    let mut out: Vec<(String, usize)> = Vec::new();
    let mut k: usize = 0;
    while k < names.len()
        invariant
            k <= names@.len() == counts@.len(),
            out@.len() == k,
            forall|m: int| 0 <= m < k ==> #[trigger] counts_view(out@)[m] == count_view(names@, counts@)[m],
        decreases names.len() - k,
    {
        let name = from_chars(names[k].as_slice());
        let ghost prev = out@;
        out.push((name, counts[k]));
        proof {
            assert forall|m: int| 0 <= m < k + 1 implies #[trigger] counts_view(out@)[m]
                == count_view(names@, counts@)[m] by {
                if m < k {
                    assert(out@[m] == prev[m]);
                    assert(counts_view(prev)[m] == count_view(names@, counts@)[m]);
                }
            }
        }
        k = k + 1;
    }
    assert(counts_view(out@) =~= count_view(names@, counts@));
    out
}

/// The width of the widest count, in decimal digits.
pub open spec fn count_width(r: Seq<(Seq<char>, nat)>) -> nat
    decreases r.len(),
{
    if r.len() == 0 {
        0
    } else {
        let w = count_width(r.drop_last());
        let d = decimal(r.last().1).len();
        if d > w {
            d
        } else {
            w
        }
    }
}

/// `n` spaces.
pub open spec fn spaces(n: nat) -> Seq<char> {
    Seq::new(n, |_i: int| ' ')
}

/// One line of the listing: the count right-aligned to `width`, a space
/// and the tag.
pub open spec fn count_line(name: Seq<char>, count: nat, width: nat) -> Seq<char> {
    spaces((width - decimal(count).len()) as nat) + decimal(count) + seq![' '] + name + seq!['\n']
}

/// The lines of `r` with counts right-aligned to `width`, in order.
pub open spec fn listing_with(r: Seq<(Seq<char>, nat)>, width: nat) -> Seq<char>
    decreases r.len(),
{
    if r.len() == 0 {
        Seq::empty()
    } else {
        listing_with(r.drop_last(), width) + count_line(r.last().0, r.last().1, width)
    }
}

/// The whole listing: every line, counts right-aligned to the widest.
pub open spec fn listing(r: Seq<(Seq<char>, nat)>) -> Seq<char> {
    listing_with(r, count_width(r))
}

proof fn lemma_count_width_bounds(r: Seq<(Seq<char>, nat)>)
    ensures
        forall|k: int| 0 <= k < r.len() ==> decimal(#[trigger] r[k].1).len() <= count_width(r),
    decreases r.len(),
{
    if r.len() > 0 {
        lemma_count_width_bounds(r.drop_last());
        assert forall|k: int| 0 <= k < r.len() implies decimal(#[trigger] r[k].1).len() <= count_width(r) by {
            if k < r.len() - 1 {
                assert(r[k] == r.drop_last()[k]);
            }
        }
    }
}

/// The listing that `--all-tags` prints for `counts`: one line per tag,
/// its count right-aligned to the widest count.
pub fn render_tag_counts(counts: &[(String, usize)]) -> (out: String)
    ensures
        out@ == listing(counts_view(counts@)),
{
    let ghost r = counts_view(counts@);
    let n: usize = counts.len();
    let mut w: usize = 0;
    let mut k: usize = 0;
    assert(r.take(0) =~= Seq::<(Seq<char>, nat)>::empty());
    while k < n
        invariant
            k <= n == counts@.len() == r.len(),
            r == counts_view(counts@),
            w == count_width(r.take(k as int)),
        decreases n - k,
    {
        let mut d: Vec<char> = Vec::new();
        push_decimal(&mut d, counts[k].1 as u64);
        assert(r.take(k + 1).drop_last() =~= r.take(k as int));
        assert(r.take(k + 1).last() == r[k as int]);
        if d.len() > w {
            w = d.len();
        }
        k = k + 1;
    }
    assert(r.take(n as int) =~= r);
    proof {
        lemma_count_width_bounds(r);
    }
    let mut out: Vec<char> = Vec::new();
    k = 0;
    while k < n
        invariant
            k <= n == counts@.len() == r.len(),
            r == counts_view(counts@),
            w == count_width(r),
            forall|m: int| 0 <= m < r.len() ==> decimal(#[trigger] r[m].1).len() <= count_width(r),
            out@ == listing_with(r.take(k as int), w as nat),
        decreases n - k,
    {
        let mut d: Vec<char> = Vec::new();
        push_decimal(&mut d, counts[k].1 as u64);
        assert(decimal(r[k as int].1).len() <= w);
        let pad: usize = w - d.len();
        let ghost start = out@;
        let mut p: usize = 0;
        while p < pad
            invariant
                p <= pad,
                out@ == start + spaces(p as nat),
            decreases pad - p,
        {
            out.push(' ');
            p = p + 1;
            assert(out@ =~= start + spaces(p as nat));
        }
        extend_chars(&mut out, d.as_slice());
        out.push(' ');
        extend_str(&mut out, counts[k].0.as_str());
        out.push('\n');
        proof {
            assert(r.take(k + 1).drop_last() =~= r.take(k as int));
            assert(r.take(k + 1).last() == r[k as int]);
            assert(out@ =~= start + count_line(r[k as int].0, r[k as int].1, w as nat));
        }
        k = k + 1;
    }
    assert(r.take(n as int) =~= r);
    from_chars(out.as_slice())
}

proof fn lemma_tag_count_prefix(r1: Seq<(Seq<char>, nat)>, r2: Seq<(Seq<char>, nat)>, all: Seq<Seq<char>>, k: int)
    requires
        is_tag_count(r1, all),
        is_tag_count(r2, all),
        0 <= k <= r1.len(),
        k <= r2.len(),
    ensures
        forall|m: int| 0 <= m < k ==> #[trigger] r1[m] == r2[m],
    decreases k,
{
    if k > 0 {
        let j = k - 1;
        lemma_tag_count_prefix(r1, r2, all, j);
        let a = r1[j].0;
        let b = r2[j].0;
        lemma_lex_total(a, b);
        if lex_lt(a, b) {
            assert(all.contains(a));
            let m = choose|m: int| 0 <= m < r2.len() && r2[m].0 == a;
            if m < j {
                assert(r1[m] == r2[m]);
                lemma_lex_irreflexive(a);
            } else if m == j {
                lemma_lex_irreflexive(a);
            } else {
                lemma_lex_transitive(a, b, a);
                lemma_lex_irreflexive(a);
            }
        } else if lex_lt(b, a) {
            assert(all.contains(b));
            let m = choose|m: int| 0 <= m < r1.len() && r1[m].0 == b;
            if m < j {
                assert(r1[m] == r2[m]);
                lemma_lex_irreflexive(b);
            } else if m == j {
                lemma_lex_irreflexive(b);
            } else {
                lemma_lex_transitive(b, a, b);
                lemma_lex_irreflexive(b);
            }
        }
        assert(r1[j].1 == occurrences(all, a));
        assert(r2[j].1 == occurrences(all, b));
        assert(r1[j] == r2[j]);
    }
}

/// The tag counts of a journal are determined by its tags: two listings
/// that both give every distinct tag once, in sorted order, with its
/// number of occurrences, are the same listing.
pub proof fn lemma_tag_counts_determined(r1: Seq<(Seq<char>, nat)>, r2: Seq<(Seq<char>, nat)>, all: Seq<Seq<char>>)
    requires
        is_tag_count(r1, all),
        is_tag_count(r2, all),
    ensures
        r1 == r2,
{
    if r1.len() < r2.len() {
        lemma_tag_count_prefix(r1, r2, all, r1.len() as int);
        let t = r2[r1.len() as int].0;
        assert(all.contains(t));
        let m = choose|m: int| 0 <= m < r1.len() && r1[m].0 == t;
        assert(r1[m] == r2[m]);
        lemma_lex_irreflexive(t);
    } else if r2.len() < r1.len() {
        lemma_tag_count_prefix(r1, r2, all, r2.len() as int);
        let t = r1[r2.len() as int].0;
        assert(all.contains(t));
        let m = choose|m: int| 0 <= m < r2.len() && r2[m].0 == t;
        assert(r1[m] == r2[m]);
        lemma_lex_irreflexive(t);
    } else {
        lemma_tag_count_prefix(r1, r2, all, r1.len() as int);
        assert(r1 =~= r2);
    }
}

/// The `--all-tags` listing of a journal, or `None` where it holds more
/// tags than a `usize` can count.
pub fn all_tags(entries: &[Entry]) -> (res: Option<String>)
    ensures
        res is Some <==> journal_tags(entries@).len() <= usize::MAX,
        res matches Some(s) ==> exists|c: Seq<(String, usize)>|
            is_tag_count(counts_view(c), journal_tags(entries@)) && s@ == listing(counts_view(c)),
{
    let mut total: usize = 0;
    let mut i: usize = 0;
    assert(entries@.take(0) =~= Seq::<Entry>::empty());
    while i < entries.len()
        invariant
            i <= entries@.len(),
            total == journal_tags(entries@.take(i as int)).len(),
        decreases entries.len() - i,
    {
        let ts = entries[i].tags();
        proof {
            lemma_journal_tags_prefix(entries@, i as int);
        }
        match total.checked_add(ts.len()) {
            Some(t) => {
                total = t;
            },
            None => {
                return None;
            },
        }
        i = i + 1;
    }
    assert(entries@.take(entries@.len() as int) =~= entries@);
    let counts = tag_counts(entries);
    let s = render_tag_counts(counts.as_slice());
    Some(s)
}

} // verus!
