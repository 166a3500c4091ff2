use vstd::prelude::*;
use vstd::std_specs::iter::IteratorSpec;

use crate::config::Config;
use crate::lines::{lines, lines_of, views};

verus! {

broadcast use {vstd::string::group_string_axioms, vstd::string::next_postcondition};

/// Whether `needle` occurs in `hay` as a run of consecutive characters.
/// The empty needle occurs in every text.
pub open spec fn contains_seq(hay: Seq<char>, needle: Seq<char>) -> bool {
    exists|i: int|
        0 <= i && i + needle.len() <= hay.len() && #[trigger] hay.subrange(i, i + needle.len())
            == needle
}

/// The lowercase form of a text, as `str::to_lowercase` gives it.
pub uninterp spec fn lower_of(s: Seq<char>) -> Seq<char>;

/// A line is kept when it holds the query verbatim.
pub open spec fn has_query(q: Seq<char>) -> spec_fn(Seq<char>) -> bool {
    |l: Seq<char>| contains_seq(l, q)
}

/// A line is kept when its lowercase form holds the lowercase query.
pub open spec fn has_query_folded(q: Seq<char>) -> spec_fn(Seq<char>) -> bool {
    |l: Seq<char>| contains_seq(lower_of(l), lower_of(q))
}

/// The lines of `s` that contain `q`, in the order of the text.
pub open spec fn search_result(q: Seq<char>, s: Seq<char>) -> Seq<Seq<char>> {
    lines_of(s).filter(has_query(q))
}

/// The lines of `s` that contain `q` when both are lowercased, in the order
/// of the text.
pub open spec fn search_folded_result(q: Seq<char>, s: Seq<char>) -> Seq<Seq<char>> {
    lines_of(s).filter(has_query_folded(q))
}

/// Relies on `str::to_lowercase`: its result depends on the characters alone.
#[verifier::external_body]
fn lowercase(s: &str) -> (r: String)
    ensures
        r@ == lower_of(s@),
{
    s.to_lowercase()
}

/// The characters of `s`, in order.
fn chars_of(s: &str) -> (r: Vec<char>)
    ensures
        r@ == s@,
{
    let mut it = s.chars();
    let mut out: Vec<char> = Vec::new();
    proof {
        assert(s@.skip(0) =~= s@);
    }
    loop
        invariant_except_break
            it.remaining() == s@.skip(out@.len() as int),
            out@ == s@.take(out@.len() as int),
            out@.len() <= s@.len(),
        ensures
            out@ == s@,
        decreases s@.len() - out@.len(),
    {
        let ghost before = it;
        match it.next() {
            Some(c) => {
                let ghost n = out@.len() as int;
                proof {
                    assert(c == s@[n]);
                    assert(it.remaining() =~= s@.skip(n + 1));
                }
                out.push(c);
                proof {
                    assert(out@ =~= s@.take(n + 1));
                }
            },
            None => {
                proof {
                    assert(before.remaining().len() == 0);
                    assert(out@ =~= s@);
                }
                break;
            },
        }
    }
    out
}

/// Whether `needle` occurs in `hay` starting at position `at`.
fn occurs_at(hay: &Vec<char>, needle: &Vec<char>, at: usize) -> (r: bool)
    requires
        at + needle@.len() <= hay@.len(),
    ensures
        r == (hay@.subrange(at as int, at + needle@.len()) == needle@),
{
    let hay_len = hay.len();
    let mut j: usize = 0;
    while j < needle.len()
        invariant
            hay_len == hay@.len(),
            at + needle@.len() <= hay@.len(),
            j <= needle@.len(),
            forall|k: int| 0 <= k < j ==> hay@[at + k] == needle@[k],
        decreases needle@.len() - j,
    {
        if hay[at + j] != needle[j] {
            proof {
                let w = hay@.subrange(at as int, at + needle@.len());
                assert(w[j as int] != needle@[j as int]);
            }
            return false;
        }
        j = j + 1;
    }
    proof {
        assert(hay@.subrange(at as int, at + needle@.len()) =~= needle@);
    }
    true
}

/// Whether `line` contains `query` as a run of consecutive characters.
pub fn line_contains(line: &str, query: &str) -> (r: bool)
    ensures
        r == contains_seq(line@, query@),
{
    let hay = chars_of(line);
    let needle = chars_of(query);
    if needle.len() > hay.len() {
        return false;
    }
    let last = hay.len() - needle.len();
    let mut i: usize = 0;
    loop
        invariant
            hay@ == line@,
            needle@ == query@,
            last == hay@.len() - needle@.len(),
            i <= last,
            forall|k: int|
                0 <= k < i ==> #[trigger] hay@.subrange(k, k + needle@.len()) != needle@,
        decreases last - i,
    {
        if occurs_at(&hay, &needle, i) {
            return true;
        }
        if i == last {
            return false;
        }
        i = i + 1;
    }
}

proof fn lemma_filter_step(all: Seq<Seq<char>>, j: int, p: spec_fn(Seq<char>) -> bool)
    requires
        0 <= j < all.len(),
    ensures
        all.take(j + 1).filter(p) == (if p(all[j]) {
            all.take(j).filter(p).push(all[j])
        } else {
            all.take(j).filter(p)
        }),
{
    reveal(Seq::filter);
    assert(all.take(j + 1).drop_last() =~= all.take(j));
}

/// The lines of `contents` that contain `query`, in the order in which they
/// stand there, each borrowed from `contents`.
pub fn search<'a>(query: &str, contents: &'a str) -> (r: Vec<&'a str>)
    ensures
        views(r@) == search_result(query@, contents@),
{
    let all = lines(contents);
    let ghost ls = views(all@);
    let mut out: Vec<&'a str> = Vec::new();
    let mut j: usize = 0;
    proof {
        reveal(Seq::filter);
        assert(ls.take(0) =~= Seq::<Seq<char>>::empty());
        assert(views(out@) =~= ls.take(0).filter(has_query(query@)));
    }
    while j < all.len()
        invariant
            ls == views(all@),
            ls == lines_of(contents@),
            j <= all@.len(),
            views(out@) == ls.take(j as int).filter(has_query(query@)),
        decreases all@.len() - j,
    {
        let line = all[j];
        proof {
            lemma_filter_step(ls, j as int, has_query(query@));
        }
        if line_contains(line, query) {
            let ghost prior = out@;
            out.push(line);
            proof {
                assert(views(out@) =~= views(prior).push(line@));
            }
        }
        j = j + 1;
    }
    proof {
        assert(ls.take(all@.len() as int) =~= ls);
    }
    out
}

/// The lines of `contents` that contain `query` when both are lowercased, in
/// the order in which they stand there. The lines returned are those of
/// `contents` as they are, each borrowed from it.
pub fn search_case_insensitive<'a>(query: &str, contents: &'a str) -> (r: Vec<&'a str>)
    ensures
        views(r@) == search_folded_result(query@, contents@),
{
    let folded_query = lowercase(query);
    let all = lines(contents);
    let ghost ls = views(all@);
    let mut out: Vec<&'a str> = Vec::new();
    let mut j: usize = 0;
    proof {
        reveal(Seq::filter);
        assert(ls.take(0) =~= Seq::<Seq<char>>::empty());
        assert(views(out@) =~= ls.take(0).filter(has_query_folded(query@)));
    }
    while j < all.len()
        invariant
            ls == views(all@),
            ls == lines_of(contents@),
            folded_query@ == lower_of(query@),
            j <= all@.len(),
            views(out@) == ls.take(j as int).filter(has_query_folded(query@)),
        decreases all@.len() - j,
    {
        let line = all[j];
        proof {
            lemma_filter_step(ls, j as int, has_query_folded(query@));
        }
        let folded_line = lowercase(line);
        if line_contains(folded_line.as_str(), folded_query.as_str()) {
            let ghost prior = out@;
            out.push(line);
            proof {
                assert(views(out@) =~= views(prior).push(line@));
            }
        }
        j = j + 1;
    }
    proof {
        assert(ls.take(all@.len() as int) =~= ls);
    }
    out
}

/// The lines that a run with `config` prints for a file that holds
/// `contents`: a verbatim search when the configuration is case-sensitive,
/// and a lowercased one otherwise.
pub fn matching_lines<'a>(config: &Config, contents: &'a str) -> (r: Vec<&'a str>)
    ensures
        config.case_sensitive ==> views(r@) == search_result(config.query@, contents@),
        !config.case_sensitive ==> views(r@) == search_folded_result(
            config.query@,
            contents@,
        ),
{
    if config.case_sensitive {
        search(config.query.as_str(), contents)
    } else {
        search_case_insensitive(config.query.as_str(), contents)
    }
}

proof fn lemma_filter_prefix(xs: Seq<Seq<char>>, k: int, p: spec_fn(Seq<char>) -> bool)
    requires
        0 <= k <= xs.len(),
    ensures
        xs.take(k).filter(p).len() <= xs.filter(p).len(),
        xs.filter(p).take(xs.take(k).filter(p).len() as int) == xs.take(k).filter(p),
    decreases xs.len(),
{
    let f = xs.take(k).filter(p);
    if k == xs.len() {
        assert(xs.take(k) =~= xs);
        assert(xs.filter(p).take(f.len() as int) =~= f);
    } else {
        let d = xs.drop_last();
        lemma_filter_prefix(d, k, p);
        assert(d.take(k) =~= xs.take(k));
        reveal(Seq::filter);
        assert(xs.filter(p).take(f.len() as int) =~= f);
    }
}

proof fn lemma_filter_none(xs: Seq<Seq<char>>, p: spec_fn(Seq<char>) -> bool)
    requires
        forall|k: int| 0 <= k < xs.len() ==> !p(#[trigger] xs[k]),
    ensures
        xs.filter(p) == Seq::<Seq<char>>::empty(),
    decreases xs.len(),
{
    reveal(Seq::filter);
    if xs.len() > 0 {
        let d = xs.drop_last();
        assert forall|k: int| 0 <= k < d.len() implies !p(#[trigger] d[k]) by {
            assert(d[k] == xs[k]);
        }
        lemma_filter_none(d, p);
    }
}

proof fn lemma_filter_all(xs: Seq<Seq<char>>, p: spec_fn(Seq<char>) -> bool)
    requires
        forall|k: int| 0 <= k < xs.len() ==> p(#[trigger] xs[k]),
    ensures
        xs.filter(p) == xs,
    decreases xs.len(),
{
    reveal(Seq::filter);
    if xs.len() > 0 {
        let d = xs.drop_last();
        assert forall|k: int| 0 <= k < d.len() implies p(#[trigger] d[k]) by {
            assert(d[k] == xs[k]);
        }
        lemma_filter_all(d, p);
        assert(d.push(xs.last()) =~= xs);
    }
}

/// The empty query is found in every line, so searching for it returns every
/// line of the text, unchanged and in order.
pub proof fn empty_query_keeps_every_line(s: Seq<char>)
    ensures
        search_result(Seq::<char>::empty(), s) == lines_of(s),
{
    let xs = lines_of(s);
    let q = Seq::<char>::empty();
    assert forall|k: int| 0 <= k < xs.len() implies #[trigger] has_query(q)(xs[k]) by {
        assert(xs[k].subrange(0, 0 + q.len() as int) =~= q);
        assert(contains_seq(xs[k], q));
    }
    lemma_filter_all(xs, has_query(q));
}

/// Two searches with the same query over the same text give the same lines,
/// in the same order.
pub proof fn search_is_deterministic(q: Seq<char>, s: Seq<char>, first: Seq<&str>, second: Seq<
    &str,
>)
    requires
        views(first) == search_result(q, s),
        views(second) == search_result(q, s),
    ensures
        views(first) == views(second),
{
}

/// When the lines at positions `i < j` of the text both contain the query,
/// each comes out of the search at the position given by the number of
/// matching lines before it, so line `i` comes out before line `j`.
pub proof fn search_keeps_order(q: Seq<char>, s: Seq<char>, i: int, j: int)
    requires
        0 <= i < j < lines_of(s).len(),
        contains_seq(lines_of(s)[i], q),
        contains_seq(lines_of(s)[j], q),
    ensures
        ({
            let xs = lines_of(s);
            let r = search_result(q, s);
            let a = xs.take(i).filter(has_query(q)).len() as int;
            let b = xs.take(j).filter(has_query(q)).len() as int;
            &&& a < b < r.len()
            &&& r[a] == xs[i]
            &&& r[b] == xs[j]
        }),
{
    let xs = lines_of(s);
    let p = has_query(q);
    let r = xs.filter(p);
    let a = xs.take(i).filter(p).len() as int;
    let b = xs.take(j).filter(p).len() as int;
    lemma_filter_step(xs, i, p);
    lemma_filter_step(xs, j, p);
    lemma_filter_prefix(xs, i + 1, p);
    lemma_filter_prefix(xs, j + 1, p);
    assert(r[a] == r.take(a + 1)[a]);
    assert(r[b] == r.take(b + 1)[b]);
    lemma_filter_prefix(xs.take(j), i + 1, p);
    assert(xs.take(j).take(i + 1) =~= xs.take(i + 1));
}

/// A query longer than every line of the text is found in none, and the
/// search returns no line.
pub proof fn long_query_finds_nothing(q: Seq<char>, s: Seq<char>)
    requires
        forall|k: int| 0 <= k < lines_of(s).len() ==> (#[trigger] lines_of(s)[k]).len() < q.len(),
    ensures
        search_result(q, s) == Seq::<Seq<char>>::empty(),
{
    let xs = lines_of(s);
    assert forall|k: int| 0 <= k < xs.len() implies !#[trigger] has_query(q)(xs[k]) by {
        assert(xs[k].len() < q.len());
    }
    lemma_filter_none(xs, has_query(q));
}

} // verus!
