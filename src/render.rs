//! Rendering the final mapping as `{key=min/mean/max, ...}`, keys in lexicographic byte
//! order, every number in tenths written with one decimal and the mean rounded half up.
use vstd::prelude::*;
use crate::stats::{Aggregate, Summary, rounded_mean, summary_valid, lemma_rounded_mean_bounds};
use crate::mapping::Mapping;

verus! {

/// Lexicographic order on byte strings; a proper prefix comes first.
pub open spec fn lex_lt(a: Seq<u8>, b: Seq<u8>) -> bool
    decreases a.len(),
{
    if a.len() == 0 {
        b.len() > 0
    } else if b.len() == 0 {
        false
    } else if a[0] != b[0] {
        a[0] < b[0]
    } else {
        lex_lt(a.drop_first(), b.drop_first())
    }
}

proof fn lemma_lex_total(a: Seq<u8>, b: Seq<u8>)
    ensures
        a != b ==> lex_lt(a, b) || lex_lt(b, a),
        !(lex_lt(a, b) && lex_lt(b, a)),
        !lex_lt(a, a),
    decreases a.len(),
{
    if a.len() > 0 && b.len() > 0 {
        lemma_lex_total(a.drop_first(), b.drop_first());
        lemma_lex_total(a.drop_first(), a.drop_first());
        if a[0] == b[0] && a.drop_first() == b.drop_first() {
            assert(a =~= seq![a[0]] + a.drop_first());
            assert(b =~= seq![b[0]] + b.drop_first());
        }
    } else if a.len() > 0 {
        lemma_lex_total(a.drop_first(), a.drop_first());
    } else if b.len() == 0 {
        assert(a =~= b);
    }
}

proof fn lemma_lex_transitive(a: Seq<u8>, b: Seq<u8>, c: Seq<u8>)
    requires
        lex_lt(a, b),
        lex_lt(b, c),
    ensures
        lex_lt(a, c),
    decreases a.len(),
{
    if a.len() > 0 && b.len() > 0 && c.len() > 0 && a[0] == b[0] && b[0] == c[0] {
        lemma_lex_transitive(a.drop_first(), b.drop_first(), c.drop_first());
    }
}

/// Whether `a` comes before `b`.
fn key_less(a: &[u8], b: &[u8]) -> (r: bool)
    ensures
        r == lex_lt(a@, b@),
{
    let mut i: usize = 0;
    assert(a@.subrange(0, a@.len() as int) =~= a@);
    assert(b@.subrange(0, b@.len() as int) =~= b@);
    while i < a.len() && i < b.len()
        invariant
            i <= a@.len(),
            i <= b@.len(),
            lex_lt(a@, b@) == lex_lt(a@.subrange(i as int, a@.len() as int), b@.subrange(i as int, b@.len() as int)),
        decreases a@.len() - i,
    {
        let ghost sa = a@.subrange(i as int, a@.len() as int);
        let ghost sb = b@.subrange(i as int, b@.len() as int);
        assert(sa[0] == a@[i as int] && sb[0] == b@[i as int]);
        if a[i] != b[i] {
            return a[i] < b[i];
        }
        assert(sa.drop_first() =~= a@.subrange(i + 1, a@.len() as int));
        assert(sb.drop_first() =~= b@.subrange(i + 1, b@.len() as int));
        i = i + 1;
    }
    i == a.len() && i < b.len()
}

/// The decimal digits of `n`.
pub open spec fn digits_text(n: nat) -> Seq<u8>
    decreases n,
{
    if n < 10 {
        seq![(48 + n) as u8]
    } else {
        digits_text(n / 10) + seq![(48 + n % 10) as u8]
    }
}

/// A value in tenths as text: optional minus sign, whole part, point, one decimal.
pub open spec fn tenths_text(v: int) -> Seq<u8> {
    let a: nat = if v < 0 { (-v) as nat } else { v as nat };
    (if v < 0 { seq![45u8] } else { Seq::<u8>::empty() }) + digits_text(a / 10) + seq![
        46u8,
        (48 + a % 10) as u8,
    ]
}

/// One entry: `key=min/mean/max`.
pub open spec fn entry_text(k: Seq<u8>, s: Summary) -> Seq<u8> {
    k + seq![61u8] + tenths_text(s.min) + seq![47u8] + tenths_text(rounded_mean(s)) + seq![47u8]
        + tenths_text(s.max)
}

/// The entries joined by `, `.
pub open spec fn entries_text(es: Seq<(Seq<u8>, Summary)>) -> Seq<u8>
    decreases es.len(),
{
    if es.len() == 0 {
        Seq::empty()
    } else if es.len() == 1 {
        entry_text(es[0].0, es[0].1)
    } else {
        entries_text(es.drop_last()) + seq![44u8, 32u8] + entry_text(es.last().0, es.last().1)
    }
}

/// The whole rendering: the entries between braces.
pub open spec fn mapping_text(es: Seq<(Seq<u8>, Summary)>) -> Seq<u8> {
    seq![123u8] + entries_text(es) + seq![125u8]
}

/// The model of a list of entries.
pub open spec fn entries_view(es: Seq<(Vec<u8>, Aggregate)>) -> Seq<(Seq<u8>, Summary)> {
    es.map_values(|e: (Vec<u8>, Aggregate)| (e.0@, e.1@))
}

/// Keys strictly increasing.
pub open spec fn keys_sorted(es: Seq<(Seq<u8>, Summary)>) -> bool {
    forall|a: int, b: int| 0 <= a < b < es.len() ==> lex_lt(#[trigger] es[a].0, #[trigger] es[b].0)
}

/// The entries list exactly the mapping `m`.
pub open spec fn lists_mapping(es: Seq<(Seq<u8>, Summary)>, m: Map<Seq<u8>, Summary>) -> bool {
    &&& forall|i: int| 0 <= i < es.len() ==> m.contains_key((#[trigger] es[i]).0) && m[es[i].0] == es[i].1
    &&& forall|k: Seq<u8>| #[trigger] m.contains_key(k) ==> exists|i: int| 0 <= i < es.len() && (#[trigger] es[i]).0 == k
}

/// Appends the decimal digits of `n`.
fn push_digits(out: &mut Vec<u8>, n: u64)
    ensures
        final(out)@ == old(out)@ + digits_text(n as nat),
    decreases n,
{
    if n < 10 {
        out.push((48 + n) as u8);
    } else {
        push_digits(out, n / 10);
        out.push((48 + n % 10) as u8);
    }
    assert(final(out)@ =~= old(out)@ + digits_text(n as nat));
}

/// Appends a value in tenths as text.
fn push_tenths(out: &mut Vec<u8>, v: i64)
    requires
        v > i64::MIN,
    ensures
        final(out)@ == old(out)@ + tenths_text(v as int),
{
    let a: u64 = if v < 0 { (-v) as u64 } else { v as u64 };
    if v < 0 {
        out.push(45u8);
    }
    push_digits(out, a / 10);
    out.push(46u8);
    out.push((48 + a % 10) as u8);
    assert(final(out)@ =~= old(out)@ + tenths_text(v as int));
}

/// Appends bytes.
fn push_all(out: &mut Vec<u8>, b: &[u8])
    ensures
        final(out)@ == old(out)@ + b@,
{
    let mut i: usize = 0;
    while i < b.len()
        invariant
            i <= b@.len(),
            out@ == old(out)@ + b@.subrange(0, i as int),
        decreases b@.len() - i,
    {
        out.push(b[i]);
        i = i + 1;
        assert(out@ =~= old(out)@ + b@.subrange(0, i as int));
    }
    assert(b@.subrange(0, b@.len() as int) =~= b@);
}

/// Appends `key=min/mean/max`.
fn push_entry(out: &mut Vec<u8>, key: &[u8], a: &Aggregate)
    requires
        a.wf(),
    ensures
        final(out)@ == old(out)@ + entry_text(key@, a@),
{
    proof {
        lemma_rounded_mean_bounds(a@);
    }
    push_all(out, key);
    out.push(61u8);
    push_tenths(out, a.min());
    out.push(47u8);
    push_tenths(out, a.mean_tenths());
    out.push(47u8);
    push_tenths(out, a.max());
    assert(final(out)@ =~= old(out)@ + entry_text(key@, a@));
}

/// Renders a list of entries in the given order.
pub fn render_entries(es: &Vec<(Vec<u8>, Aggregate)>) -> (r: Vec<u8>)
    requires
        forall|i: int| 0 <= i < es@.len() ==> (#[trigger] es@[i]).1.wf(),
    ensures
        r@ == mapping_text(entries_view(es@)),
{
    let mut out: Vec<u8> = Vec::new();
    out.push(123u8);
    let mut i: usize = 0;
    while i < es.len()
        invariant
            i <= es@.len(),
            forall|t: int| 0 <= t < es@.len() ==> (#[trigger] es@[t]).1.wf(),
            out@ == seq![123u8] + entries_text(entries_view(es@.subrange(0, i as int))),
        decreases es@.len() - i,
    {
        assert(es@[i as int].1.wf());
        if i > 0 {
            out.push(44u8);
            out.push(32u8);
        }
        push_entry(&mut out, es[i].0.as_slice(), &es[i].1);
        let ghost cur = entries_view(es@.subrange(0, i + 1));
        assert(cur.drop_last() =~= entries_view(es@.subrange(0, i as int)));
        assert(cur.last() == (es@[i as int].0@, es@[i as int].1@));
        i = i + 1;
        assert(out@ =~= seq![123u8] + entries_text(entries_view(es@.subrange(0, i as int))));
    }
    out.push(125u8);
    assert(es@.subrange(0, es@.len() as int) =~= es@);
    out
}

/// Inserting at a place where everything before is smaller and what follows is larger keeps
/// keys sorted.
proof fn lemma_sorted_insert(v: Seq<(Seq<u8>, Summary)>, p: int, x: (Seq<u8>, Summary))
    requires
        keys_sorted(v),
        0 <= p <= v.len(),
        forall|a: int| 0 <= a < p ==> lex_lt((#[trigger] v[a]).0, x.0),
        p < v.len() ==> lex_lt(x.0, v[p].0),
    ensures
        keys_sorted(v.insert(p, x)),
{
    let w = v.insert(p, x);
    assert forall|a: int, b: int| 0 <= a < b < w.len() implies lex_lt(#[trigger] w[a].0, #[trigger] w[b].0) by {
        if b < p {
            assert(w[a] == v[a] && w[b] == v[b]);
        } else if b == p {
            assert(w[a] == v[a]);
        } else if a < p {
            assert(w[a] == v[a] && w[b] == v[b - 1]);
        } else if a == p {
            assert(w[b] == v[b - 1]);
            if b - 1 > p {
                lemma_lex_transitive(x.0, v[p].0, v[b - 1].0);
            }
        } else {
            assert(w[a] == v[a - 1] && w[b] == v[b - 1]);
        }
    }
}

/// Where `key` goes in a sorted list: after every smaller key.
fn insert_position(out: &Vec<(Vec<u8>, Aggregate)>, key: &[u8]) -> (p: usize)
    ensures
        p <= out@.len(),
        forall|a: int| 0 <= a < p ==> lex_lt((#[trigger] out@[a]).0@, key@),
        p < out@.len() ==> !lex_lt(out@[p as int].0@, key@),
{
    let mut p: usize = 0;
    while p < out.len() && key_less(out[p].0.as_slice(), key)
        invariant
            p <= out@.len(),
            forall|a: int| 0 <= a < p ==> lex_lt((#[trigger] out@[a]).0@, key@),
        decreases out@.len() - p,
    {
        p = p + 1;
    }
    p
}

/// The entries of `m`, keys in lexicographic order.
#[verifier::rlimit(40)]
pub fn sorted_entries(m: &Mapping) -> (r: Vec<(Vec<u8>, Aggregate)>)
    requires
        m.wf(),
    ensures
        keys_sorted(entries_view(r@)),
        lists_mapping(entries_view(r@), m@),
        forall|i: int| 0 <= i < r@.len() ==> (#[trigger] r@[i]).1.wf(),
{
    let src = m.entries();
    let mut out: Vec<(Vec<u8>, Aggregate)> = Vec::new();
    let mut j: usize = 0;
    while j < src.len()
        invariant
            j <= src@.len(),
            forall|i: int| 0 <= i < src@.len() ==> m@.contains_key((#[trigger] src@[i]).0@) && m@[src@[i].0@]
                == src@[i].1@ && src@[i].1.wf(),
            forall|a: int, b: int|
                0 <= a < src@.len() && 0 <= b < src@.len() && a != b ==> (#[trigger] src@[a]).0@ != (#[trigger] src@[b]).0@,
            forall|k: Seq<u8>| #[trigger]
                m@.contains_key(k) ==> exists|i: int| 0 <= i < src@.len() && (#[trigger] src@[i]).0@ == k,
            keys_sorted(entries_view(out@)),
            forall|i: int| 0 <= i < out@.len() ==> m@.contains_key((#[trigger] out@[i]).0@) && m@[out@[i].0@]
                == out@[i].1@ && out@[i].1.wf(),
            forall|i: int| 0 <= i < out@.len() ==> exists|t: int| 0 <= t < j && (#[trigger] out@[i]).0@ == (#[trigger] src@[t]).0@,
            forall|t: int| 0 <= t < j ==> exists|i: int| 0 <= i < out@.len() && (#[trigger] out@[i]).0@ == (#[trigger] src@[t]).0@,
        decreases src@.len() - j,
    {
        let key = src[j].0.as_slice();
        let p = insert_position(&out, key);
        let ghost old_out = out@;
        let ghost k = key@;
        proof {
            if p < old_out.len() {
                assert(old_out[p as int].0@ != k) by {
                    let t = choose|t: int| 0 <= t < j && (#[trigger] old_out[p as int]).0@ == (#[trigger] src@[t]).0@;
                    assert(src@[t].0@ != src@[j as int].0@);
                }
                lemma_lex_total(old_out[p as int].0@, k);
            }
            let v = entries_view(old_out);
            assert forall|a: int| 0 <= a < p implies lex_lt((#[trigger] v[a]).0, k) by {
                assert(v[a].0 == old_out[a].0@);
            }
            lemma_sorted_insert(v, p as int, (k, src@[j as int].1@));
        }
        let copy = crate::record::copy_range(key, 0, key.len());
        assert(copy@ =~= k);
        out.insert(p, (copy, src[j].1.clone()));
        proof {
            assert(entries_view(out@) =~= entries_view(old_out).insert(p as int, (k, src@[j as int].1@)));
            assert forall|i: int| 0 <= i < out@.len() implies m@.contains_key((#[trigger] out@[i]).0@) && m@[out@[i].0@]
                == out@[i].1@ && out@[i].1.wf() by {
                if i < p {
                    assert(out@[i] == old_out[i]);
                } else if i > p {
                    assert(out@[i] == old_out[i - 1]);
                }
            }
            assert forall|i: int| 0 <= i < out@.len() implies exists|t: int| 0 <= t < j + 1 && (#[trigger] out@[i]).0@ == (#[trigger] src@[t]).0@ by {
                if i < p {
                    assert(out@[i] == old_out[i]);
                    let t = choose|t: int| 0 <= t < j && (#[trigger] old_out[i]).0@ == (#[trigger] src@[t]).0@;
                } else if i > p {
                    assert(out@[i] == old_out[i - 1]);
                    let t = choose|t: int| 0 <= t < j && (#[trigger] old_out[i - 1]).0@ == (#[trigger] src@[t]).0@;
                } else {
                    assert(out@[i].0@ == src@[j as int].0@);
                }
            }
            assert forall|t: int| 0 <= t < j + 1 implies exists|i: int| 0 <= i < out@.len() && (#[trigger] out@[i]).0@ == (#[trigger] src@[t]).0@ by {
                if t < j {
                    let i = choose|i: int| 0 <= i < old_out.len() && (#[trigger] old_out[i]).0@ == (#[trigger] src@[t]).0@;
                    if i < p {
                        assert(out@[i] == old_out[i]);
                    } else {
                        assert(out@[i + 1] == old_out[i]);
                    }
                } else {
                    assert(out@[p as int].0@ == src@[t].0@);
                }
            }
        }
        j = j + 1;
    }
    proof {
        let v = entries_view(out@);
        assert forall|i: int| 0 <= i < v.len() implies m@.contains_key((#[trigger] v[i]).0) && m@[v[i].0] == v[i].1 by {
            assert(v[i] == (out@[i].0@, out@[i].1@));
        }
        assert forall|k: Seq<u8>| #[trigger] m@.contains_key(k) implies exists|i: int| 0 <= i < v.len() && (#[trigger] v[i]).0 == k by {
            let t = choose|t: int| 0 <= t < src@.len() && (#[trigger] src@[t]).0@ == k;
            let i = choose|i: int| 0 <= i < out@.len() && (#[trigger] out@[i]).0@ == (#[trigger] src@[t]).0@;
            assert(v[i].0 == out@[i].0@);
        }
    }
    out
}

/// Renders `m` as `{key=min/mean/max, ...}` with keys in lexicographic order; an empty
/// mapping gives `{}`.
pub fn render(m: &Mapping) -> (r: Vec<u8>)
    requires
        m.wf(),
    ensures
        exists|es: Seq<(Seq<u8>, Summary)>|
            keys_sorted(es) && lists_mapping(es, m@) && r@ == mapping_text(es),
        m@.len() == 0 ==> r@ == seq![123u8, 125u8],
{
    let es = sorted_entries(m);
    let r = render_entries(&es);
    proof {
        let v = entries_view(es@);
        assert(keys_sorted(v) && lists_mapping(v, m@) && r@ == mapping_text(v));
        if m@.len() == 0 {
            if v.len() > 0 {
                assert(m@.contains_key(v[0].0));
                assert(m@.dom().contains(v[0].0));
                m.lemma_finite();
                vstd::set_lib::lemma_set_empty_equivalency_len(m@.dom());
            }
            assert(mapping_text(v) =~= seq![123u8, 125u8]);
        }
    }
    r
}

} // verus!
