//! Stable sorting by name, as `sort_by(|a, b| a.name.cmp(&b.name))` does.
use vstd::prelude::*;

use crate::text::{chars_lt, lemma_lex_total, lemma_lex_transitive, lex_lt};

verus! {

/// Values sorted by a name.
pub trait Named {
    spec fn key(&self) -> Seq<char>;

    fn name_chars(&self) -> (r: Vec<char>)
        ensures
            r@ == self.key(),
    ;
}

/// `x` placed after every value whose name does not sort after its own.
pub open spec fn insert_by_key<T: Named>(s: Seq<T>, x: T) -> Seq<T>
    decreases s.len(),
{
    if s.len() == 0 {
        seq![x]
    } else if lex_lt(x.key(), s.last().key()) {
        insert_by_key(s.drop_last(), x).push(s.last())
    } else {
        s.push(x)
    }
}

/// The values in name order, equal names keeping their order.
pub open spec fn sort_by_key<T: Named>(s: Seq<T>) -> Seq<T>
    decreases s.len(),
{
    if s.len() == 0 {
        s
    } else {
        insert_by_key(sort_by_key(s.drop_last()), s.last())
    }
}

/// Where `insert_by_key` puts `x`.
pub open spec fn insert_pos<T: Named>(s: Seq<T>, x: T) -> int
    decreases s.len(),
{
    if s.len() == 0 {
        0
    } else if lex_lt(x.key(), s.last().key()) {
        insert_pos(s.drop_last(), x)
    } else {
        s.len() as int
    }
}

proof fn lemma_insert_pos<T: Named>(s: Seq<T>, x: T)
    ensures
        0 <= insert_pos(s, x) <= s.len(),
        insert_by_key(s, x) == s.insert(insert_pos(s, x), x),
    decreases s.len(),
{
    if s.len() > 0 {
        lemma_insert_pos(s.drop_last(), x);
        if lex_lt(x.key(), s.last().key()) {
            let p = insert_pos(s.drop_last(), x);
            assert(s.drop_last().insert(p, x).push(s.last()) =~= s.insert(p, x));
        } else {
            assert(s.push(x) =~= s.insert(s.len() as int, x));
        }
    } else {
        assert(seq![x] =~= s.insert(0, x));
    }
}

/// Inserts `x` into `v` where a stable sort by name puts it.
pub fn insert_sorted<T: Named>(v: &mut Vec<T>, x: T)
    ensures
        final(v)@ == insert_by_key(old(v)@, x),
{
    let xn = x.name_chars();
    let mut j = v.len();
    assert(v@.take(j as int) =~= v@);
    while j > 0 && chars_lt(xn.as_slice(), v[j - 1].name_chars().as_slice())
        invariant
            j <= v.len(),
            xn@ == x.key(),
            insert_pos(v@, x) == insert_pos(v@.take(j as int), x),
        decreases j,
    {
        assert(v@.take(j as int).drop_last() =~= v@.take(j - 1));
        assert(v@.take(j as int).last() == v@[j - 1]);
        j -= 1;
    }
    proof {
        if j > 0 {
            assert(v@.take(j as int).last() == v@[j - 1]);
        }
        assert(insert_pos(v@.take(j as int), x) == j);
        lemma_insert_pos(v@, x);
    }
    v.insert(j, x);
}

/// Sorts `v` by name, keeping the order of equal names.
pub fn sort_by_name<T: Named>(v: Vec<T>) -> (r: Vec<T>)
    ensures
        r@ == sort_by_key(v@),
{
    let ghost orig = v@;
    assert(orig.len() == v.len());
    let mut rest = v;
    let mut out: Vec<T> = Vec::new();
    let mut k: usize = 0;
    assert(orig.take(0) =~= Seq::<T>::empty());
    assert(orig.skip(0) =~= orig);
    while rest.len() > 0
        invariant
            k <= orig.len(),
            orig.len() <= usize::MAX,
            rest@ == orig.skip(k as int),
            out@ == sort_by_key(orig.take(k as int)),
        decreases rest.len(),
    {
        assert(orig.skip(k as int).len() == orig.len() - k);
        assert(k < orig.len());
        let x = rest.remove(0);
        assert(orig.take(k + 1).drop_last() =~= orig.take(k as int));
        assert(orig.take(k + 1).last() == orig[k as int]);
        insert_sorted(&mut out, x);
        assert(rest@ =~= orig.skip(k + 1));
        k += 1;
    }
    assert(orig.take(k as int) =~= orig);
    out
}

/// Names never decrease along the sequence.
pub open spec fn key_sorted<T: Named>(s: Seq<T>) -> bool {
    forall|i: int, j: int| 0 <= i < j < s.len() ==> !lex_lt(#[trigger] s[j].key(), #[trigger] s[i].key())
}

proof fn lemma_insert_by_key<T: Named>(s: Seq<T>, x: T)
    requires
        key_sorted(s),
    ensures
        key_sorted(insert_by_key(s, x)),
        insert_by_key(s, x).to_multiset() == s.to_multiset().insert(x),
    decreases s.len(),
{
    broadcast use vstd::seq_lib::group_to_multiset_ensures;

    if s.len() == 0 {
        assert(seq![x] =~= Seq::<T>::empty().push(x));
    } else {
        let last = s.last();
        let d = s.drop_last();
        assert(key_sorted(d)) by {
            assert forall|i: int, j: int| 0 <= i < j < d.len() implies !lex_lt(
                #[trigger] d[j].key(),
                #[trigger] d[i].key(),
            ) by {
                assert(d[i] == s[i] && d[j] == s[j]);
            }
        }
        assert(s =~= d.push(last));
        if lex_lt(x.key(), last.key()) {
            lemma_insert_by_key(d, x);
            let r1 = insert_by_key(d, x);
            let r = r1.push(last);
            assert forall|i: int, j: int| 0 <= i < j < r.len() implies !lex_lt(
                #[trigger] r[j].key(),
                #[trigger] r[i].key(),
            ) by {
                if j == r.len() - 1 {
                    let e = r[i];
                    assert(r1[i] == e);
                    assert(r1.contains(e));
                    assert(r1.to_multiset().count(e) > 0);
                    if e == x {
                        lemma_lex_total(x.key(), last.key());
                    } else {
                        assert(d.to_multiset().count(e) > 0);
                        assert(d.contains(e));
                        let k = choose|k: int| 0 <= k < d.len() && d[k] == e;
                        assert(s[k] == e);
                        assert(s[s.len() - 1] == last);
                    }
                } else {
                    assert(r[i] == r1[i] && r[j] == r1[j]);
                }
            }
        } else {
            let r = s.push(x);
            assert forall|i: int, j: int| 0 <= i < j < r.len() implies !lex_lt(
                #[trigger] r[j].key(),
                #[trigger] r[i].key(),
            ) by {
                if j == r.len() - 1 {
                    let e = s[i];
                    assert(r[i] == e);
                    if lex_lt(x.key(), e.key()) {
                        if i < s.len() - 1 {
                            assert(!lex_lt(s[s.len() - 1].key(), s[i].key()));
                            lemma_lex_total(e.key(), last.key());
                            if e.key() != last.key() {
                                lemma_lex_transitive(x.key(), e.key(), last.key());
                            }
                        }
                    }
                } else {
                    assert(r[i] == s[i] && r[j] == s[j]);
                }
            }
        }
    }
}

/// Sorting by name gives the same values, with names in non-decreasing
/// order.
pub proof fn lemma_sort_by_key<T: Named>(s: Seq<T>)
    ensures
        key_sorted(sort_by_key(s)),
        sort_by_key(s).to_multiset() == s.to_multiset(),
    decreases s.len(),
{
    broadcast use vstd::seq_lib::group_to_multiset_ensures;

    if s.len() > 0 {
        lemma_sort_by_key(s.drop_last());
        lemma_insert_by_key(sort_by_key(s.drop_last()), s.last());
        assert(s =~= s.drop_last().push(s.last()));
    }
}

/// `x` placed after every element whose key (by `key`) does not sort after
/// its own.
pub open spec fn insert_by<V>(s: Seq<V>, x: V, key: spec_fn(V) -> Seq<char>) -> Seq<V>
    decreases s.len(),
{
    if s.len() == 0 {
        seq![x]
    } else if lex_lt(key(x), key(s.last())) {
        insert_by(s.drop_last(), x, key).push(s.last())
    } else {
        s.push(x)
    }
}

/// The elements in order of `key`, equal keys keeping their order.
pub open spec fn sort_by<V>(s: Seq<V>, key: spec_fn(V) -> Seq<char>) -> Seq<V>
    decreases s.len(),
{
    if s.len() == 0 {
        s
    } else {
        insert_by(sort_by(s.drop_last(), key), s.last(), key)
    }
}

proof fn lemma_insert_views<T: Named, V>(
    s: Seq<T>,
    x: T,
    f: spec_fn(T) -> V,
    key: spec_fn(V) -> Seq<char>,
)
    requires
        forall|y: T| #[trigger] key(f(y)) == y.key(),
    ensures
        insert_by_key(s, x).map_values(f) == insert_by(s.map_values(f), f(x), key),
    decreases s.len(),
{
    let m = s.map_values(f);
    if s.len() == 0 {
        assert(insert_by_key(s, x).map_values(f) =~= seq![f(x)]);
    } else {
        assert(m.drop_last() =~= s.drop_last().map_values(f));
        assert(m.last() == f(s.last()));
        assert(key(f(x)) == x.key());
        assert(key(f(s.last())) == s.last().key());
        if lex_lt(x.key(), s.last().key()) {
            lemma_insert_views(s.drop_last(), x, f, key);
            assert(insert_by_key(s, x).map_values(f) =~= insert_by_key(s.drop_last(), x).map_values(
                f,
            ).push(f(s.last())));
        } else {
            assert(insert_by_key(s, x).map_values(f) =~= m.push(f(x)));
        }
    }
}

/// Sorting by name and then taking views gives the views sorted by the key
/// the name becomes.
pub proof fn lemma_sort_views<T: Named, V>(s: Seq<T>, f: spec_fn(T) -> V, key: spec_fn(V) -> Seq<char>)
    requires
        forall|y: T| #[trigger] key(f(y)) == y.key(),
    ensures
        sort_by_key(s).map_values(f) == sort_by(s.map_values(f), key),
    decreases s.len(),
{
    if s.len() == 0 {
        assert(sort_by_key(s).map_values(f) =~= s.map_values(f));
    } else {
        lemma_sort_views(s.drop_last(), f, key);
        assert(s.map_values(f).drop_last() =~= s.drop_last().map_values(f));
        assert(s.map_values(f).last() == f(s.last()));
        lemma_insert_views(sort_by_key(s.drop_last()), s.last(), f, key);
    }
}

proof fn lemma_insert_by_contains<V>(s: Seq<V>, x: V, key: spec_fn(V) -> Seq<char>)
    ensures
        forall|y: V| #[trigger] insert_by(s, x, key).contains(y) <==> (s.contains(y) || y == x),
    decreases s.len(),
{
    if s.len() > 0 {
        lemma_insert_by_contains(s.drop_last(), x, key);
        let d = s.drop_last();
        assert forall|y: V| #[trigger] insert_by(s, x, key).contains(y) <==> (s.contains(y) || y == x) by {
            if lex_lt(key(x), key(s.last())) {
                let r = insert_by(d, x, key);
                assert(insert_by(s, x, key) == r.push(s.last()));
                if r.push(s.last()).contains(y) {
                    let k = choose|k: int| 0 <= k < r.push(s.last()).len() && r.push(s.last())[k] == y;
                    if k < r.len() {
                        assert(r[k] == y);
                        assert(r.contains(y));
                        if d.contains(y) {
                            let j = choose|j: int| 0 <= j < d.len() && d[j] == y;
                            assert(s[j] == y);
                        }
                    } else {
                        assert(s[s.len() - 1] == y);
                    }
                }
                if s.contains(y) {
                    let j = choose|j: int| 0 <= j < s.len() && s[j] == y;
                    if j < d.len() {
                        assert(d[j] == y);
                        assert(r.contains(y));
                        let k = choose|k: int| 0 <= k < r.len() && r[k] == y;
                        assert(r.push(s.last())[k] == y);
                    } else {
                        assert(r.push(s.last())[r.len() as int] == y);
                    }
                }
                if y == x {
                    assert(r.contains(y));
                    let k = choose|k: int| 0 <= k < r.len() && r[k] == y;
                    assert(r.push(s.last())[k] == y);
                }
            } else {
                assert(insert_by(s, x, key) == s.push(x));
                if s.push(x).contains(y) {
                    let k = choose|k: int| 0 <= k < s.push(x).len() && s.push(x)[k] == y;
                    if k < s.len() {
                        assert(s[k] == y);
                    }
                }
                if s.contains(y) {
                    let j = choose|j: int| 0 <= j < s.len() && s[j] == y;
                    assert(s.push(x)[j] == y);
                }
                if y == x {
                    assert(s.push(x)[s.len() as int] == y);
                }
            }
        }
    } else {
        assert forall|y: V| #[trigger] insert_by(s, x, key).contains(y) <==> (s.contains(y) || y == x) by {
            if y == x {
                assert(seq![x][0] == y);
            }
        }
    }
}

/// Sorting keeps exactly the elements it was given.
pub proof fn lemma_sort_by_contains<V>(s: Seq<V>, key: spec_fn(V) -> Seq<char>)
    ensures
        forall|y: V| #[trigger] sort_by(s, key).contains(y) <==> s.contains(y),
    decreases s.len(),
{
    if s.len() > 0 {
        let d = s.drop_last();
        lemma_sort_by_contains(d, key);
        lemma_insert_by_contains(sort_by(d, key), s.last(), key);
        assert forall|y: V| #[trigger] sort_by(s, key).contains(y) <==> s.contains(y) by {
            if d.contains(y) {
                let j = choose|j: int| 0 <= j < d.len() && d[j] == y;
                assert(s[j] == y);
            }
            if s.contains(y) {
                let j = choose|j: int| 0 <= j < s.len() && s[j] == y;
                if j < d.len() {
                    assert(d[j] == y);
                } else {
                    assert(y == s.last());
                }
            }
        }
    }
}

} // verus!
