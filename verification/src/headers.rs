//! Request headers as plain values: an ordered list of name/value pairs,
//! looked up by name without regard to ASCII case, and merged into a
//! canonical set that keeps one scalar for a name seen once and an ordered
//! list for a name seen more than once.

use vstd::prelude::*;
use crate::strutil::{chars_vec, contains_sub, spec_contains_sub, spec_split, split_chars};

verus! {

/// The two characters are equal up to ASCII case.
pub open spec fn char_eq_ci(x: char, y: char) -> bool {
    ||| x == y
    ||| ('A' <= x && x <= 'Z' && y as u32 == x as u32 + 32)
    ||| ('A' <= y && y <= 'Z' && x as u32 == y as u32 + 32)
}

/// The two strings are equal up to ASCII case.
pub open spec fn str_eq_ci(a: Seq<char>, b: Seq<char>) -> bool {
    a.len() == b.len() && forall|i: int| 0 <= i < a.len() ==> char_eq_ci(a[i], #[trigger] b[i])
}

/// Whether two strings are equal up to ASCII case.
pub fn eq_ignore_case(a: &str, b: &str) -> (r: bool)
    ensures
        r == str_eq_ci(a@, b@),
{
    let av = chars_vec(a);
    let bv = chars_vec(b);
    if av.len() != bv.len() {
        return false;
    }
    let mut i: usize = 0;
    while i < av.len()
        invariant
            i <= av@.len(),
            av@.len() == bv@.len(),
            av@ == a@,
            bv@ == b@,
            forall|j: int| 0 <= j < i ==> char_eq_ci(a@[j], #[trigger] b@[j]),
        decreases av@.len() - i,
    {
        let x = av[i];
        let y = bv[i];
        let same = if x == y {
            true
        } else if x >= 'A' && x <= 'Z' && y as u32 == x as u32 + 32 {
            true
        } else if y >= 'A' && y <= 'Z' && x as u32 == y as u32 + 32 {
            true
        } else {
            false
        };
        if !same {
            return false;
        }
        i += 1;
    }
    true
}

/// The view of a list of header entries: each name and value as characters,
/// in arrival order.
pub open spec fn entries_view(hs: Seq<(String, String)>) -> Seq<(Seq<char>, Seq<char>)> {
    hs.map_values(|p: (String, String)| (p.0@, p.1@))
}

/// The value of the first entry whose name equals `name` up to ASCII case.
pub open spec fn spec_header_first(hs: Seq<(Seq<char>, Seq<char>)>, name: Seq<char>) -> Option<
    Seq<char>,
>
    decreases hs.len(),
{
    if hs.len() == 0 {
        None
    } else if str_eq_ci(hs[0].0, name) {
        Some(hs[0].1)
    } else {
        spec_header_first(hs.drop_first(), name)
    }
}

/// Finds the first header entry named `name`, without regard to ASCII case.
pub fn header_first<'a>(headers: &'a Vec<(String, String)>, name: &str) -> (r: Option<
    &'a String,
>)
    ensures
        match r {
            Some(v) => spec_header_first(entries_view(headers@), name@) == Some(v@),
            None => spec_header_first(entries_view(headers@), name@) is None,
        },
{
    let ghost hs = entries_view(headers@);
    let mut i: usize = 0;
    proof {
        assert(hs.subrange(0, hs.len() as int) =~= hs);
    }
    while i < headers.len()
        invariant
            i <= headers@.len(),
            hs == entries_view(headers@),
            hs.len() == headers@.len(),
            forall|j: int| 0 <= j < headers@.len() ==> #[trigger] hs[j] == (headers@[j].0@, headers@[j].1@),
            spec_header_first(hs, name@) == spec_header_first(
                hs.subrange(i as int, hs.len() as int),
                name@,
            ),
        decreases headers@.len() - i,
    {
        let hit = eq_ignore_case(headers[i].0.as_str(), name);
        proof {
            let tail = hs.subrange(i as int, hs.len() as int);
            assert(tail[0] == hs[i as int]);
            assert(tail.drop_first() =~= hs.subrange(i + 1, hs.len() as int));
        }
        if hit {
            return Some(&headers[i].1);
        }
        i += 1;
    }
    proof {
        assert(hs.subrange(hs.len() as int, hs.len() as int) =~= Seq::<(Seq<char>, Seq<char>)>::empty());
    }
    None
}

/// The values of one merged header name: a single scalar where the name
/// arrived once, an ordered list where it arrived more than once.
#[derive(Debug)]
pub enum HeaderValues {
    One(String),
    Many(Vec<String>),
}

impl View for HeaderValues {
    type V = Seq<Seq<char>>;

    open spec fn view(&self) -> Seq<Seq<char>> {
        match self {
            HeaderValues::One(s) => seq![s@],
            HeaderValues::Many(vs) => vs@.map_values(|v: String| v@),
        }
    }
}

/// The index of the first pair in `m` whose name equals `k` exactly, or
/// `m.len()` when there is none.
pub open spec fn find_key(m: Seq<(Seq<char>, Seq<Seq<char>>)>, k: Seq<char>) -> int
    decreases m.len(),
{
    if m.len() == 0 {
        0
    } else if m[0].0 == k {
        0
    } else {
        1 + find_key(m.drop_first(), k)
    }
}

/// The merged form of a list of header entries: names in order of first
/// arrival, each with the ordered list of its values. Names are compared
/// exactly here; the surrounding transport is expected to hand names in one
/// case.
pub open spec fn spec_merge(entries: Seq<(Seq<char>, Seq<char>)>) -> Seq<
    (Seq<char>, Seq<Seq<char>>),
>
    decreases entries.len(),
{
    if entries.len() == 0 {
        Seq::empty()
    } else {
        let prev = spec_merge(entries.drop_last());
        let k = entries.last().0;
        let v = entries.last().1;
        let i = find_key(prev, k);
        if i < prev.len() {
            prev.update(i, (k, prev[i].1.push(v)))
        } else {
            prev.push((k, seq![v]))
        }
    }
}

pub proof fn lemma_find_key_at(m: Seq<(Seq<char>, Seq<Seq<char>>)>, k: Seq<char>, j: int)
    requires
        0 <= j < m.len(),
        m[j].0 == k,
        forall|t: int| 0 <= t < j ==> (#[trigger] m[t]).0 != k,
    ensures
        find_key(m, k) == j,
    decreases j,
{
    if j > 0 {
        assert(forall|t: int|
            0 <= t < j - 1 ==> (#[trigger] m.drop_first()[t]).0 == m[t + 1].0);
        assert(m.drop_first()[j - 1] == m[j]);
        lemma_find_key_at(m.drop_first(), k, j - 1);
    }
}

pub proof fn lemma_find_key_none(m: Seq<(Seq<char>, Seq<Seq<char>>)>, k: Seq<char>)
    requires
        forall|t: int| 0 <= t < m.len() ==> (#[trigger] m[t]).0 != k,
    ensures
        find_key(m, k) == m.len(),
    decreases m.len(),
{
    if m.len() > 0 {
        assert(forall|t: int|
            0 <= t < m.len() - 1 ==> (#[trigger] m.drop_first()[t]).0 == m[t + 1].0);
        lemma_find_key_none(m.drop_first(), k);
    }
}

pub proof fn lemma_find_key_props(m: Seq<(Seq<char>, Seq<Seq<char>>)>, k: Seq<char>)
    ensures
        0 <= find_key(m, k) <= m.len(),
        find_key(m, k) < m.len() ==> m[find_key(m, k)].0 == k,
        forall|t: int| 0 <= t < find_key(m, k) ==> (#[trigger] m[t]).0 != k,
    decreases m.len(),
{
    if m.len() > 0 && m[0].0 != k {
        lemma_find_key_props(m.drop_first(), k);
        assert(forall|t: int|
            1 <= t < m.len() ==> #[trigger] m[t] == m.drop_first()[t - 1]);
    }
}

pub proof fn lemma_find_key_same_keys(
    m1: Seq<(Seq<char>, Seq<Seq<char>>)>,
    m2: Seq<(Seq<char>, Seq<Seq<char>>)>,
    k: Seq<char>,
)
    requires
        m1.len() == m2.len(),
        forall|t: int| 0 <= t < m1.len() ==> (#[trigger] m1[t]).0 == m2[t].0,
    ensures
        find_key(m1, k) == find_key(m2, k),
    decreases m1.len(),
{
    if m1.len() > 0 {
        assert(forall|t: int|
            0 <= t < m1.len() - 1 ==> (#[trigger] m1.drop_first()[t]).0 == m1[t + 1].0);
        assert(forall|t: int|
            0 <= t < m2.len() - 1 ==> (#[trigger] m2.drop_first()[t]).0 == m2[t + 1].0);
        lemma_find_key_same_keys(m1.drop_first(), m2.drop_first(), k);
    }
}

/// The values that arrived under the name `k`, in arrival order.
pub open spec fn values_of(entries: Seq<(Seq<char>, Seq<char>)>, k: Seq<char>) -> Seq<Seq<char>>
    decreases entries.len(),
{
    if entries.len() == 0 {
        Seq::empty()
    } else {
        let rest = values_of(entries.drop_last(), k);
        if entries.last().0 == k {
            rest.push(entries.last().1)
        } else {
            rest
        }
    }
}

/// What the merge means, for every entry list and every name: names appear
/// at most once in the merged set, a name that is present carries exactly
/// the values that arrived under it, in arrival order, and a name that is
/// absent received no values at all.
pub proof fn lemma_merge_characterizes(entries: Seq<(Seq<char>, Seq<char>)>, k: Seq<char>)
    ensures
        forall|i: int, j: int|
            0 <= i < j < spec_merge(entries).len() ==> (#[trigger] spec_merge(entries)[i]).0 != (
            #[trigger] spec_merge(entries)[j]).0,
        find_key(spec_merge(entries), k) < spec_merge(entries).len() ==> spec_merge(entries)[
            find_key(spec_merge(entries), k)].1 == values_of(entries, k),
        find_key(spec_merge(entries), k) == spec_merge(entries).len() ==> values_of(entries, k)
            == Seq::<Seq<char>>::empty(),
    decreases entries.len(),
{
    if entries.len() == 0 {
    } else {
        let e = entries.drop_last();
        let kl = entries.last().0;
        let vl = entries.last().1;
        lemma_merge_characterizes(e, k);
        lemma_merge_characterizes(e, kl);
        let prev = spec_merge(e);
        let merged = spec_merge(entries);
        let i = find_key(prev, kl);
        lemma_find_key_props(prev, kl);
        lemma_find_key_props(prev, k);
        if i < prev.len() {
            assert(merged == prev.update(i, (kl, prev[i].1.push(vl))));
            assert(prev[i].0 == kl);
            assert(forall|t: int| 0 <= t < merged.len() ==> (#[trigger] merged[t]).0 == prev[t].0);
            lemma_find_key_same_keys(prev, merged, k);
            lemma_find_key_props(merged, k);
            if k == kl {
                assert(find_key(merged, k) == i);
                assert(merged[i].1 == prev[i].1.push(vl));
                assert(values_of(entries, k) == values_of(e, k).push(vl));
            } else {
                let fk = find_key(merged, k);
                if fk < merged.len() {
                    assert(fk == find_key(prev, k));
                    assert(prev[fk].0 == k);
                    assert(fk != i);
                    assert(merged[fk].1 == prev[fk].1);
                    assert(values_of(entries, k) == values_of(e, k));
                } else {
                    assert(values_of(entries, k) == values_of(e, k));
                }
            }
        } else {
            assert(merged == prev.push((kl, seq![vl])));
            assert(forall|t: int| 0 <= t < prev.len() ==> (#[trigger] prev[t]).0 != kl);
            assert(forall|t: int| 0 <= t < prev.len() ==> #[trigger] merged[t] == prev[t]);
            if k == kl {
                lemma_find_key_at(merged, k, prev.len() as int);
                assert(find_key(merged, k) == prev.len());
                assert(values_of(e, k) == Seq::<Seq<char>>::empty());
                assert(merged[prev.len() as int].1 =~= Seq::<Seq<char>>::empty().push(vl));
                assert(values_of(entries, k) == values_of(e, k).push(vl));
            } else {
                assert(values_of(entries, k) == values_of(e, k));
                let fp = find_key(prev, k);
                if fp < prev.len() {
                    lemma_find_key_at(merged, k, fp);
                    assert(find_key(merged, k) == fp);
                    assert(merged[fp].1 == prev[fp].1);
                } else {
                    assert(forall|t: int| 0 <= t < merged.len() ==> (#[trigger] merged[t]).0 != k);
                    lemma_find_key_none(merged, k);
                }
            }
        }
    }
}

/// The model of the working list the merge builds: each name with its
/// values, as character sequences.
pub open spec fn acc_view(acc: Seq<(String, Vec<String>)>) -> Seq<(Seq<char>, Seq<Seq<char>>)> {
    acc.map_values(|p: (String, Vec<String>)| (p.0@, p.1@.map_values(|s: String| s@)))
}

/// Finds the first pair of `acc` whose name equals `k`, or `acc.len()`.
fn find_entry(acc: &Vec<(String, Vec<String>)>, k: &String) -> (r: usize)
    ensures
        r == find_key(acc_view(acc@), k@),
        r <= acc@.len(),
        r < acc@.len() ==> acc_view(acc@)[r as int].0 == k@,
{
    let ghost m = acc_view(acc@);
    let mut j: usize = 0;
    while j < acc.len()
        invariant
            j <= acc@.len(),
            m == acc_view(acc@),
            m.len() == acc@.len(),
            forall|t: int| 0 <= t < acc@.len() ==> (#[trigger] m[t]).0 == acc@[t].0@,
            forall|t: int| 0 <= t < j ==> (#[trigger] m[t]).0 != k@,
        decreases acc@.len() - j,
    {
        if acc[j].0 == *k {
            proof {
                lemma_find_key_at(m, k@, j as int);
            }
            return j;
        }
        j += 1;
    }
    proof {
        lemma_find_key_none(m, k@);
    }
    acc.len()
}

/// Merges raw header entries, in arrival order, into the canonical header
/// set: names in order of first arrival; a name that arrived once keeps its
/// single value as a scalar, a name that arrived more than once keeps its
/// values as an ordered list.
pub fn pretty_multimap(entries: &Vec<(String, String)>) -> (r: Vec<(String, HeaderValues)>)
    ensures
        r@.len() == spec_merge(entries_view(entries@)).len(),
        forall|i: int|
            0 <= i < r@.len() ==> (#[trigger] r@[i]).0@ == spec_merge(entries_view(entries@))[i].0
                && r@[i].1@ == spec_merge(entries_view(entries@))[i].1,
        forall|i: int|
            0 <= i < r@.len() ==> ((#[trigger] r@[i]).1 is One <==> spec_merge(
                entries_view(entries@),
            )[i].1.len() == 1),
{
    let ghost es = entries_view(entries@);
    let mut acc: Vec<(String, Vec<String>)> = Vec::new();
    let mut idx: usize = 0;
    proof {
        assert(es.subrange(0, 0) =~= Seq::<(Seq<char>, Seq<char>)>::empty());
        assert(acc_view(acc@) =~= spec_merge(es.subrange(0, 0)));
    }
    while idx < entries.len()
        invariant
            idx <= entries@.len(),
            es == entries_view(entries@),
            es.len() == entries@.len(),
            forall|j: int|
                0 <= j < entries@.len() ==> #[trigger] es[j] == (entries@[j].0@, entries@[j].1@),
            acc_view(acc@) == spec_merge(es.subrange(0, idx as int)),
            forall|i: int| 0 <= i < acc@.len() ==> (#[trigger] acc@[i]).1@.len() >= 1,
        decreases entries@.len() - idx,
    {
        let ghost m = spec_merge(es.subrange(0, idx as int));
        let k = entries[idx].0.clone();
        let v = entries[idx].1.clone();
        let j = find_entry(&acc, &k);
        proof {
            assert(es.subrange(0, idx + 1).drop_last() =~= es.subrange(0, idx as int));
            assert(es.subrange(0, idx + 1).last() == es[idx as int]);
        }
        if j < acc.len() {
            acc[j].1.push(v);
            proof {
                let mp = m.update(j as int, (k@, m[j as int].1.push(v@)));
                assert(acc@[j as int].0@ == k@);
                assert(acc@[j as int].1@.map_values(|s: String| s@) =~= m[j as int].1.push(v@));
                assert(acc_view(acc@) =~= mp);
                assert(spec_merge(es.subrange(0, idx + 1)) == mp);
            }
        } else {
            let mut vs: Vec<String> = Vec::new();
            vs.push(v);
            acc.push((k, vs));
            proof {
                let mp = m.push((k@, seq![v@]));
                assert(acc@.last().1@.map_values(|s: String| s@) =~= seq![v@]);
                assert(acc_view(acc@) =~= mp);
                assert(spec_merge(es.subrange(0, idx + 1)) == mp);
            }
        }
        idx += 1;
    }
    proof {
        assert(es.subrange(0, es.len() as int) =~= es);
    }
    let ghost m = spec_merge(es);
    // collapse singleton lists to scalars
    let mut out: Vec<(String, HeaderValues)> = Vec::new();
    while acc.len() > 0
        invariant
            m == spec_merge(es),
            out@.len() + acc@.len() == m.len(),
            forall|i: int|
                0 <= i < out@.len() ==> (#[trigger] out@[i]).0@ == m[i].0 && out@[i].1@ == m[i].1,
            forall|i: int|
                0 <= i < out@.len() ==> ((#[trigger] out@[i]).1 is One <==> m[i].1.len() == 1),
            forall|i: int|
                0 <= i < acc@.len() ==> (#[trigger] acc_view(acc@)[i]) == m[out@.len() + i],
            acc_view(acc@).len() == acc@.len(),
            forall|i: int| 0 <= i < acc@.len() ==> (#[trigger] acc@[i]).1@.len() >= 1,
        decreases acc@.len(),
    {
        let ghost accv0 = acc_view(acc@);
        let mut pair = acc.remove(0);
        proof {
            assert(accv0[0] == (pair.0@, pair.1@.map_values(|s: String| s@)));
            assert(acc_view(acc@) =~= accv0.drop_first());
        }
        if pair.1.len() == 1 {
            let s = match pair.1.pop() {
                Some(s) => s,
                None => {
                    // a merged name always holds at least one value
                    pair.0.clone()
                },
            };
            proof {
                assert(seq![s@] =~= accv0[0].1);
            }
            out.push((pair.0, HeaderValues::One(s)));
        } else {
            proof {
                assert(pair.1@.map_values(|s: String| s@) == accv0[0].1);
            }
            out.push((pair.0, HeaderValues::Many(pair.1)));
        }
    }
    out
}

/// The request asks for HTML: some comma-separated part of the first
/// `accept` header value mentions `text/html`.
pub open spec fn spec_requested_html(hs: Seq<(Seq<char>, Seq<char>)>) -> bool {
    match spec_header_first(hs, "accept"@) {
        None => false,
        Some(v) => exists|i: int|
            0 <= i < spec_split(v, ',').len() && spec_contains_sub(
                #[trigger] spec_split(v, ',')[i],
                "text/html"@,
            ),
    }
}

/// Whether the request, by its `accept` header, asks for an HTML response.
pub fn requested_html(headers: &Vec<(String, String)>) -> (r: bool)
    ensures
        r == spec_requested_html(entries_view(headers@)),
{
    let accept = match header_first(headers, "accept") {
        Some(v) => v,
        None => { return false; },
    };
    let av = chars_vec(accept.as_str());
    let parts = split_chars(&av, ',');
    let needle = chars_vec("text/html");
    let ghost vsplit = spec_split(accept@, ',');
    let mut i: usize = 0;
    while i < parts.len()
        invariant
            i <= parts@.len(),
            parts@.len() == vsplit.len(),
            vsplit == spec_split(accept@, ','),
            needle@ == "text/html"@,
            spec_header_first(entries_view(headers@), "accept"@) == Some(accept@),
            forall|j: int| 0 <= j < parts@.len() ==> #[trigger] parts@[j]@ == vsplit[j],
            forall|j: int| 0 <= j < i ==> !spec_contains_sub(#[trigger] vsplit[j], "text/html"@),
        decreases parts@.len() - i,
    {
        if contains_sub(&parts[i], &needle) {
            proof {
                let hs2 = entries_view(headers@);
                let v = spec_header_first(hs2, "accept"@)->Some_0;
                assert(v == accept@);
                assert(spec_contains_sub(spec_split(v, ',')[i as int], "text/html"@));
                assert(spec_requested_html(hs2));
            }
            return true;
        }
        i += 1;
    }
    false
}

} // verus!
