//! Ordering the two buckets and assembling the final sequence: Latin entries
//! in code-point order, then Han entries in stroke-count order, with an
//! optional 1-indexed numbering prefix.

use vstd::prelude::*;
use vstd::relations::sorted_by;
use vstd::seq_lib::lemma_sorted_unique;
use vstd::string::{StrSliceExecFns, StringExecFns};
use crate::numbers;
use crate::order;
use crate::order::{lex_le, lex_leq};
use crate::stroke_table::StrokeTable;
use crate::text::{str_views, lemma_str_views_remove, lemma_str_views_insert};

verus! {

/// A Han entry the stroke sorter can order: nonempty, with a stroke count
/// recorded for its first character.
pub open spec fn entry_ok(t: Map<char, int>, l: Seq<char>) -> bool {
    l.len() > 0 && t.contains_key(l[0])
}

/// Stroke-count order under the table `t`, as a binary relation value.
pub open spec fn stroke_leq(t: Map<char, int>) -> spec_fn(Seq<char>, Seq<char>) -> bool {
    |a: Seq<char>, b: Seq<char>| t[a[0]] <= t[b[0]]
}

/// The position where `x` is inserted into the sorted prefix `[0, hi)`: the
/// first slot whose entry does not come before `x`.
fn latin_insert_pos(v: &Vec<String>, hi: usize, x: &str) -> (j: usize)
    requires
        hi <= v@.len(),
    ensures
        j <= hi,
        forall|k: int| 0 <= k < j ==> lex_le(str_views(v@)[k], x@),
        j < hi ==> !lex_le(str_views(v@)[j as int], x@),
{
    let mut j: usize = 0;
    while j < hi
        invariant
            0 <= j <= hi,
            hi <= v@.len(),
            forall|k: int| 0 <= k < j ==> lex_le(str_views(v@)[k], x@),
        decreases hi - j,
    {
        if !order::str_le(v[j].as_str(), x) {
            proof {
                assert(str_views(v@)[j as int] == v@[j as int]@);
            }
            return j;
        }
        proof {
            assert(str_views(v@)[j as int] == v@[j as int]@);
        }
        j += 1;
    }
    j
}

/// Orders the Latin bucket by plain code-point comparison of the whole
/// entry, ascending: the result is a sorted rearrangement of the input.
pub fn sort_latin(content: Vec<String>) -> (r: Vec<String>)
    ensures
        r@.len() == content@.len(),
        sorted_by(str_views(r@), lex_leq()),
        str_views(r@).to_multiset() == str_views(content@).to_multiset(),
{
    let ghost orig = str_views(content@);
    let mut v = content;
    if v.len() <= 1 {
        return v;
    }
    let mut i: usize = 1;
    while i < v.len()
        invariant
            1 <= i <= v@.len(),
            v@.len() == orig.len(),
            str_views(v@).to_multiset() == orig.to_multiset(),
            sorted_by(str_views(v@).subrange(0, i as int), lex_leq()),
        decreases v@.len() - i,
    {
        let ghost pv = v@;
        let ghost s = str_views(pv);
        let x = v.remove(i);
        proof {
            lemma_str_views_remove(pv, i as int);
        }
        let j = latin_insert_pos(&v, i, x.as_str());
        let ghost vr = str_views(v@);
        v.insert(j, x);
        proof {
            broadcast use vstd::seq_lib::group_to_multiset_ensures;
            broadcast use vstd::multiset::group_multiset_axioms;

            lemma_str_views_insert(pv.remove(i as int), j as int, x);
            order::lemma_lex_total_ordering();
            let vi = str_views(v@);
            assert(vr == s.remove(i as int));
            assert(vi == vr.insert(j as int, x@));
            assert(x@ == s[i as int]);
            // the rearranged contents are the same
            assert(vr.to_multiset() == s.to_multiset().remove(s[i as int]));
            assert(vi.to_multiset() == vr.to_multiset().insert(x@));
            assert(s.contains(s[i as int]));
            assert(s.to_multiset().count(s[i as int]) > 0);
            assert(vi.to_multiset() =~= s.to_multiset());
            // the grown prefix is sorted
            let p = s.subrange(0, i as int);
            let q = vi.subrange(0, i as int + 1);
            let leq = lex_leq();
            assert(forall|k: int| 0 <= k < i ==> p[k] == s[k]);
            assert(forall|k: int| 0 <= k < j ==> q[k] == vr[k] && vr[k] == s[k]);
            assert(q[j as int] == x@);
            assert(forall|k: int| j < k <= i ==> q[k] == vr[k - 1] && vr[k - 1] == s[k - 1]);
            if (j as int) < i {
                assert(!lex_le(s[j as int], x@));
                order::lemma_lex_connected(s[j as int], x@);
                assert(lex_le(x@, s[j as int]));
            }
            assert forall|a: int, b: int| 0 <= a < b < q.len() implies #[trigger] leq(
                q[a],
                q[b],
            ) by {
                if b < j {
                    assert(leq(p[a], p[b]));
                } else if b == j {
                    assert(lex_le(s[a], x@));
                } else if a == j {
                    assert(lex_le(x@, s[j as int]));
                    if b - 1 > j {
                        assert(leq(p[j as int], p[b - 1]));
                        assert(lex_le(s[j as int], s[b - 1]));
                        order::lemma_lex_trans(x@, s[j as int], s[b - 1]);
                    }
                } else if a < j {
                    assert(leq(p[a], p[b - 1]));
                } else {
                    assert(leq(p[a - 1], p[b - 1]));
                }
            }
            assert(sorted_by(q, leq));
        }
        i += 1;
    }
    proof {
        assert(str_views(v@).subrange(0, v@.len() as int) =~= str_views(v@));
    }
    v
}

/// The position where a Han entry with stroke count `key` is inserted into
/// the sorted prefix `[0, hi)`.
fn han_insert_pos(v: &Vec<String>, hi: usize, key: i32, table: &StrokeTable) -> (j: usize)
    requires
        hi <= v@.len(),
        forall|k: int| 0 <= k < hi ==> entry_ok(table@, #[trigger] str_views(v@)[k]),
    ensures
        j <= hi,
        forall|k: int| 0 <= k < j ==> table@[#[trigger] str_views(v@)[k][0]] <= key as int,
        j < hi ==> !(table@[str_views(v@)[j as int][0]] <= key as int),
{
    let mut j: usize = 0;
    while j < hi
        invariant
            0 <= j <= hi,
            hi <= v@.len(),
            forall|k: int| 0 <= k < hi ==> entry_ok(table@, #[trigger] str_views(v@)[k]),
            forall|k: int| 0 <= k < j ==> table@[#[trigger] str_views(v@)[k][0]] <= key as int,
        decreases hi - j,
    {
        proof {
            assert(str_views(v@)[j as int] == v@[j as int]@);
            assert(entry_ok(table@, str_views(v@)[j as int]));
        }
        let c = v[j].as_str().get_char(0);
        let kj = table.get_stroke(c);
        if !(kj <= key) {
            return j;
        }
        j += 1;
    }
    j
}

/// Orders the Han bucket by the stroke count of each entry's first
/// character, ascending: the result is a sorted rearrangement of the input.
/// Every entry's first character must have a recorded stroke count.
pub fn sort_han(content: Vec<String>, table: &StrokeTable) -> (r: Vec<String>)
    requires
        forall|k: int|
            0 <= k < content@.len() ==> entry_ok(table@, #[trigger] str_views(content@)[k]),
    ensures
        r@.len() == content@.len(),
        sorted_by(str_views(r@), stroke_leq(table@)),
        str_views(r@).to_multiset() == str_views(content@).to_multiset(),
{
    let ghost tm = table@;
    let ghost orig = str_views(content@);
    let mut v = content;
    if v.len() <= 1 {
        return v;
    }
    let mut i: usize = 1;
    while i < v.len()
        invariant
            1 <= i <= v@.len(),
            v@.len() == orig.len(),
            tm == table@,
            str_views(v@).to_multiset() == orig.to_multiset(),
            forall|k: int| 0 <= k < v@.len() ==> entry_ok(tm, #[trigger] str_views(v@)[k]),
            sorted_by(str_views(v@).subrange(0, i as int), stroke_leq(tm)),
        decreases v@.len() - i,
    {
        let ghost pv = v@;
        let ghost s = str_views(pv);
        let x = v.remove(i);
        proof {
            lemma_str_views_remove(pv, i as int);
            assert forall|k: int| 0 <= k < str_views(v@).len() implies entry_ok(
                tm,
                #[trigger] str_views(v@)[k],
            ) by {
                assert(str_views(v@)[k] == if k < i {
                    s[k]
                } else {
                    s[k + 1]
                });
            }
            assert(entry_ok(tm, s[i as int]));
            assert(x@ == s[i as int]);
            assert(entry_ok(tm, x@));
        }
        let c = x.as_str().get_char(0);
        let key = table.get_stroke(c);
        let j = han_insert_pos(&v, i, key, table);
        let ghost vr = str_views(v@);
        v.insert(j, x);
        proof {
            broadcast use vstd::seq_lib::group_to_multiset_ensures;
            broadcast use vstd::multiset::group_multiset_axioms;

            lemma_str_views_insert(pv.remove(i as int), j as int, x);
            let vi = str_views(v@);
            assert(vr == s.remove(i as int));
            assert(vi == vr.insert(j as int, x@));
            assert(x@ == s[i as int]);
            assert(key as int == tm[x@[0]]);
            // the rearranged contents are the same
            assert(vr.to_multiset() == s.to_multiset().remove(s[i as int]));
            assert(vi.to_multiset() == vr.to_multiset().insert(x@));
            assert(s.contains(s[i as int]));
            assert(s.to_multiset().count(s[i as int]) > 0);
            assert(vi.to_multiset() =~= s.to_multiset());
            // every entry still has a recorded stroke count
            assert forall|k: int| 0 <= k < vi.len() implies entry_ok(
                tm,
                #[trigger] vi[k],
            ) by {
                if k < j {
                    assert(vi[k] == vr[k]);
                } else if k == j {
                    assert(vi[k] == x@);
                } else {
                    assert(vi[k] == vr[k - 1]);
                }
            }
            // the grown prefix is sorted
            let p = s.subrange(0, i as int);
            let q = vi.subrange(0, i as int + 1);
            let leq = stroke_leq(tm);
            assert(forall|k: int| 0 <= k < i ==> p[k] == s[k]);
            assert(forall|k: int| 0 <= k < j ==> q[k] == vr[k] && vr[k] == s[k]);
            assert(q[j as int] == x@);
            assert(forall|k: int| j < k <= i ==> q[k] == vr[k - 1] && vr[k - 1] == s[k - 1]);
            if (j as int) < i {
                assert(!(tm[s[j as int][0]] <= key as int));
            }
            assert forall|a: int, b: int| 0 <= a < b < q.len() implies #[trigger] leq(
                q[a],
                q[b],
            ) by {
                if b < j {
                    assert(leq(p[a], p[b]));
                } else if b == j {
                    assert(tm[s[a][0]] <= key as int);
                } else if a == j {
                    if b - 1 > j {
                        assert(leq(p[j as int], p[b - 1]));
                    }
                } else if a < j {
                    assert(leq(p[a], p[b - 1]));
                } else {
                    assert(leq(p[a - 1], p[b - 1]));
                }
            }
            assert(sorted_by(q, leq));
        }
        i += 1;
    }
    proof {
        assert(str_views(v@).subrange(0, v@.len() as int) =~= str_views(v@));
    }
    v
}

/// The assembled sequence with the 1-indexed numbering prefix applied.
pub open spec fn numbered(s: Seq<Seq<char>>) -> Seq<Seq<char>> {
    Seq::new(s.len(), |i: int| numbers::dec_digits((i + 1) as nat) + seq!['.', ' '] + s[i])
}

/// The final sequence: the Latin block always precedes the Han block, and
/// with `numbering` the concatenation is numbered in final order.
pub open spec fn assembled(a: Seq<Seq<char>>, b: Seq<Seq<char>>, numbering: bool) -> Seq<
    Seq<char>,
> {
    if numbering {
        numbered(a + b)
    } else {
        a + b
    }
}

/// Concatenates the sorted Latin block and the sorted Han block, in that
/// order, and numbers the result when `numbering` is set.
pub fn assemble(latin: Vec<String>, han: Vec<String>, numbering: bool) -> (r: Vec<String>)
    ensures
        str_views(r@) == assembled(str_views(latin@), str_views(han@), numbering),
{
    let ghost a = str_views(latin@);
    let ghost b = str_views(han@);
    let mut all = latin;
    let mut rest = han;
    all.append(&mut rest);
    proof {
        assert(str_views(all@) =~= a + b);
    }
    if !numbering {
        return all;
    }
    let ghost base = str_views(all@);
    let n = all.len();
    let mut out: Vec<String> = Vec::new();
    let mut i: usize = 0;
    while i < n
        invariant
            0 <= i <= n,
            n == all@.len(),
            base == str_views(all@),
            out@.len() == i,
            forall|k: int| 0 <= k < i ==> #[trigger] str_views(out@)[k] == numbered(base)[k],
        decreases n - i,
    {
        let ghost pre = out@;
        let mut line = numbers::decimal_string(i + 1);
        line.append(". ");
        line.append(all[i].as_str());
        proof {
            reveal_strlit(". ");
            assert(". "@ =~= seq!['.', ' ']);
            assert(line@ == numbers::dec_digits((i + 1) as nat) + seq!['.', ' '] + base[i as int]);
        }
        out.push(line);
        proof {
            assert forall|k: int| 0 <= k < i + 1 implies #[trigger] str_views(out@)[k] == numbered(
                base,
            )[k] by {
                if k < i {
                    assert(str_views(out@)[k] == str_views(pre)[k]);
                } else {
                    assert(str_views(out@)[k] == out@[k]@);
                }
            }
        }
        i += 1;
    }
    proof {
        assert(str_views(out@) =~= numbered(base));
        assert(assembled(a, b, true) == numbered(a + b));
    }
    out
}

/// Sorting an already sorted sequence yields the same sequence: any two
/// code-point-sorted sequences with the same contents are equal, so the
/// sorted rearrangement of a sorted Latin bucket is that bucket itself.
pub proof fn lemma_latin_sort_round_trip(a: Seq<Seq<char>>, b: Seq<Seq<char>>)
    requires
        sorted_by(a, lex_leq()),
        sorted_by(b, lex_leq()),
        a.to_multiset() == b.to_multiset(),
    ensures
        a == b,
{
    order::lemma_lex_total_ordering();
    lemma_sorted_unique(a, b, lex_leq());
}

/// Sorting an already sorted Han bucket whose stroke counts are pairwise
/// distinct yields the same sequence. With equal stroke counts the order of
/// the tied entries is left open, so only this restricted form holds.
pub proof fn lemma_han_sort_round_trip(t: Map<char, int>, a: Seq<Seq<char>>, b: Seq<Seq<char>>)
    requires
        sorted_by(a, stroke_leq(t)),
        sorted_by(b, stroke_leq(t)),
        a.to_multiset() == b.to_multiset(),
        forall|i: int, j: int|
            0 <= i < j < a.len() ==> t[(#[trigger] a[i])[0]] != t[(#[trigger] a[j])[0]],
    ensures
        a == b,
    decreases a.len(),
{
    broadcast use vstd::seq_lib::group_to_multiset_ensures;
    broadcast use vstd::multiset::group_multiset_axioms;

    if a.len() == 0 {
        assert(b.to_multiset().len() == 0);
        assert(a =~= b);
    } else {
        assert(a.to_multiset().len() == a.len());
        assert(b.to_multiset().len() == b.len());
        assert(b.len() == a.len());
        assert(a.to_multiset().contains(a[0]));
        assert(b.to_multiset().contains(a[0]));
        let i0 = choose|i: int| 0 <= i < b.len() && b[i] == a[0];
        assert(b.to_multiset().contains(b[0]));
        assert(a.to_multiset().contains(b[0]));
        let j0 = choose|j: int| 0 <= j < a.len() && a[j] == b[0];
        // the least stroke count sits at the front of both
        if j0 > 0 {
            assert(stroke_leq(t)(a[0], a[j0]));
        }
        assert(t[a[0][0]] <= t[a[j0][0]]);
        if i0 > 0 {
            assert(stroke_leq(t)(b[0], b[i0]));
        }
        assert(t[b[0][0]] <= t[b[i0][0]]);
        assert(t[a[0][0]] == t[b[0][0]]);
        // pairwise distinct keys force the fronts to be the same entry
        if j0 != 0 {
            assert(t[a[0][0]] != t[a[j0][0]]);
            assert(t[a[j0][0]] == t[b[0][0]]);
            assert(false);
        }
        assert(a[0] == b[0]);
        assert(a.drop_first() =~= a.remove(0));
        assert(b.drop_first() =~= b.remove(0));
        assert(a.remove(0).to_multiset() == a.to_multiset().remove(a[0]));
        assert(b.remove(0).to_multiset() == b.to_multiset().remove(b[0]));
        assert(a.drop_first().to_multiset() =~= a.to_multiset().remove(a[0]));
        assert(b.drop_first().to_multiset() =~= b.to_multiset().remove(b[0]));
        assert forall|i: int, j: int|
            0 <= i < j < a.drop_first().len() implies t[(#[trigger] a.drop_first()[i])[0]] != t[(
        #[trigger] a.drop_first()[j])[0]] by {
            assert(a.drop_first()[i] == a[i + 1]);
            assert(a.drop_first()[j] == a[j + 1]);
        }
        assert forall|i: int, j: int|
            0 <= i < j < a.drop_first().len() implies stroke_leq(t)(
            a.drop_first()[i],
            a.drop_first()[j],
        ) by {
            assert(a.drop_first()[i] == a[i + 1]);
            assert(a.drop_first()[j] == a[j + 1]);
        }
        assert forall|i: int, j: int|
            0 <= i < j < b.drop_first().len() implies stroke_leq(t)(
            b.drop_first()[i],
            b.drop_first()[j],
        ) by {
            assert(b.drop_first()[i] == b[i + 1]);
            assert(b.drop_first()[j] == b[j + 1]);
        }
        lemma_han_sort_round_trip(t, a.drop_first(), b.drop_first());
        assert forall|k: int| 0 <= k < a.len() implies a[k] == b[k] by {
            if k > 0 {
                assert(a.drop_first()[k - 1] == b.drop_first()[k - 1]);
            }
        }
        assert(a =~= b);
    }
}

} // verus!
