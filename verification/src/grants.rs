//! Read-write grants of the Python sandbox: prefixes of the user's tree that
//! are mounted writable, kept disjoint so that no mount lies inside another.
use vstd::prelude::*;

use crate::text::{
    chars_lt, chars_of, extend, has_prefix, lemma_lex_irreflexive, lemma_lex_total,
    lemma_lex_transitive, lex_lt, starts_with, str_is, string_of,
};

verus! {

broadcast use vstd::string::group_string_axioms;

pub open spec fn views_of(v: Seq<String>) -> Seq<Seq<char>> {
    v.map_values(|s: String| s@)
}

/// `path` lies strictly inside `ancestor`.
pub open spec fn is_under(path: Seq<char>, ancestor: Seq<char>) -> bool {
    has_prefix(path, ancestor + seq!['/'])
}

/// Whether `path` lies strictly inside `ancestor`.
pub fn path_is_under(path: &[char], ancestor: &[char]) -> (r: bool)
    ensures
        r == is_under(path@, ancestor@),
{
    let mut a = crate::text::copy_chars(ancestor);
    a.push('/');
    assert(a@ =~= ancestor@ + seq!['/']);
    starts_with(path, a.as_slice())
}

/// Each element sorts strictly before the next ones.
pub open spec fn strictly_sorted(s: Seq<Seq<char>>) -> bool {
    forall|i: int, j: int| 0 <= i < j < s.len() ==> lex_lt(#[trigger] s[i], #[trigger] s[j])
}

/// A grant that survives: given, not empty, and inside no other given
/// non-empty grant.
pub open spec fn survives(given: Seq<Seq<char>>, x: Seq<char>) -> bool {
    &&& x.len() > 0
    &&& given.contains(x)
    &&& forall|j: int| 0 <= j < given.len() && given[j].len() > 0 ==> !is_under(x, #[trigger] given[j])
}

/// The non-empty grants among the first `n` given.
pub open spec fn given_nonempty(given: Seq<Seq<char>>, n: int, x: Seq<char>) -> bool {
    x.len() > 0 && exists|j: int| 0 <= j < n && #[trigger] given[j] == x
}

/// Inserts `p` into the strictly sorted `sorted` unless it is there already.
fn insert_sorted(sorted: &mut Vec<String>, p: &String)
    requires
        strictly_sorted(views_of(old(sorted)@)),
    ensures
        strictly_sorted(views_of(final(sorted)@)),
        forall|x: Seq<char>| #[trigger] views_of(final(sorted)@).contains(x) <==> (views_of(
            old(sorted)@,
        ).contains(x) || x == p@),
{
    let ghost sv = views_of(sorted@);
    let pv = chars_of(p.as_str());
    let mut k: usize = 0;
    while k < sorted.len() && chars_lt(chars_of(sorted[k].as_str()).as_slice(), pv.as_slice())
        invariant
            k <= sorted.len(),
            sv == views_of(sorted@),
            pv@ == p@,
            forall|i: int| 0 <= i < k ==> lex_lt(#[trigger] sv[i], p@),
        decreases sorted.len() - k,
    {
        k += 1;
    }
    if k < sorted.len() && str_is(sorted[k].as_str(), pv.as_slice()) {
        assert(sv[k as int] == p@);
        assert(sv.contains(p@));
        return;
    }
    proof {
        if k < sv.len() {
            lemma_lex_total(sv[k as int], p@);
        }
    }
    sorted.insert(k, p.clone());
    proof {
        let nv = views_of(sorted@);
        assert(nv =~= sv.insert(k as int, p@));
        assert forall|i: int, j: int| 0 <= i < j < nv.len() implies lex_lt(
            #[trigger] nv[i],
            #[trigger] nv[j],
        ) by {
            if j < k {
                assert(nv[i] == sv[i] && nv[j] == sv[j]);
            } else if j == k {
                assert(nv[i] == sv[i]);
            } else if i == k {
                assert(nv[j] == sv[j - 1]);
                if j - 1 > k {
                    lemma_lex_transitive(p@, sv[k as int], sv[j - 1]);
                }
            } else if i < k {
                assert(nv[i] == sv[i] && nv[j] == sv[j - 1]);
            } else {
                assert(nv[i] == sv[i - 1] && nv[j] == sv[j - 1]);
            }
        }
        assert forall|x: Seq<char>| #[trigger] nv.contains(x) <==> (sv.contains(x) || x == p@) by {
            if nv.contains(x) {
                let m = choose|m: int| 0 <= m < nv.len() && nv[m] == x;
                if m < k {
                    assert(sv[m] == x);
                } else if m > k {
                    assert(sv[m - 1] == x);
                }
            }
            if sv.contains(x) {
                let m = choose|m: int| 0 <= m < sv.len() && sv[m] == x;
                if m < k {
                    assert(nv[m] == x);
                } else {
                    assert(nv[m + 1] == x);
                }
            }
            if x == p@ {
                assert(nv[k as int] == x);
            }
        }
    }
}

/// Sorts, deduplicates and drops every prefix nested in another, so that
/// the read-write grant mounts never overlap. Empty prefixes are dropped.
pub fn disjoint_prefixes(prefixes: Vec<String>) -> (r: Vec<String>)
    ensures
        strictly_sorted(views_of(r@)),
        forall|x: Seq<char>| #[trigger] views_of(r@).contains(x) <==> survives(
            views_of(prefixes@),
            x,
        ),
{
    let ghost given = views_of(prefixes@);
    let mut sorted: Vec<String> = Vec::new();
    let mut i: usize = 0;
    while i < prefixes.len()
        invariant
            i <= prefixes.len(),
            given == views_of(prefixes@),
            strictly_sorted(views_of(sorted@)),
            forall|x: Seq<char>| #[trigger] views_of(sorted@).contains(x) <==> given_nonempty(
                given,
                i as int,
                x,
            ),
        decreases prefixes.len() - i,
    {
        let ghost before = views_of(sorted@);
        assert(given[i as int] == prefixes@[i as int]@);
        if !prefixes[i].as_str().is_empty() {
            insert_sorted(&mut sorted, &prefixes[i]);
        }
        proof {
            let after = views_of(sorted@);
            assert forall|x: Seq<char>| #[trigger] after.contains(x) <==> given_nonempty(
                given,
                i + 1,
                x,
            ) by {
                if given_nonempty(given, i + 1, x) {
                    let j = choose|j: int| 0 <= j < i + 1 && #[trigger] given[j] == x;
                    if j < i {
                        assert(given_nonempty(given, i as int, x));
                    }
                }
                if given_nonempty(given, i as int, x) {
                    let j = choose|j: int| 0 <= j < i && #[trigger] given[j] == x;
                    assert(0 <= j < i + 1);
                }
                if after.contains(x) && !before.contains(x) {
                    assert(x == given[i as int]);
                    assert(0 <= i < i + 1);
                }
            }
        }
        i += 1;
    }
    let ghost sv = views_of(sorted@);
    let mut kept: Vec<String> = Vec::new();
    let mut k: usize = 0;
    while k < sorted.len()
        invariant
            k <= sorted.len(),
            sv == views_of(sorted@),
            strictly_sorted(sv),
            strictly_sorted(views_of(kept@)),
            forall|m: int, j: int|
                0 <= m < kept@.len() && k <= j < sv.len() ==> lex_lt(
                    #[trigger] views_of(kept@)[m],
                    #[trigger] sv[j],
                ),
            forall|x: Seq<char>| #[trigger] views_of(kept@).contains(x) <==> (exists|j: int|
                0 <= j < k && sv[j] == x) && forall|t: int|
                0 <= t < sv.len() ==> !is_under(x, #[trigger] sv[t]),
        decreases sorted.len() - k,
    {
        let cur = chars_of(sorted[k].as_str());
        assert(cur@ == sv[k as int]);
        let mut nested = false;
        let mut t: usize = 0;
        while t < sorted.len()
            invariant
                t <= sorted.len(),
                k < sorted.len(),
                sv == views_of(sorted@),
                cur@ == sv[k as int],
                nested <==> exists|u: int| 0 <= u < t && is_under(cur@, #[trigger] sv[u]),
            decreases sorted.len() - t,
        {
            let anc = chars_of(sorted[t].as_str());
            assert(anc@ == sv[t as int]);
            if path_is_under(cur.as_slice(), anc.as_slice()) {
                nested = true;
            }
            t += 1;
        }
        let ghost kv = views_of(kept@);
        if !nested {
            kept.push(sorted[k].clone());
            assert(views_of(kept@) =~= kv.push(cur@));
        }
        proof {
            let nk = views_of(kept@);
            assert forall|a: int, b: int| 0 <= a < b < nk.len() implies lex_lt(
                #[trigger] nk[a],
                #[trigger] nk[b],
            ) by {
                if b == kv.len() {
                    assert(nk[a] == kv[a]);
                    assert(nk[b] == sv[k as int]);
                } else {
                    assert(nk[a] == kv[a] && nk[b] == kv[b]);
                }
            }
            assert forall|m: int, j: int|
                0 <= m < nk.len() && k + 1 <= j < sv.len() implies lex_lt(
                #[trigger] nk[m],
                #[trigger] sv[j],
            ) by {
                if m == kv.len() {
                    assert(nk[m] == sv[k as int]);
                } else {
                    assert(nk[m] == kv[m]);
                }
            }
            assert forall|x: Seq<char>| #[trigger] nk.contains(x) <==> (exists|j: int|
                0 <= j < k + 1 && sv[j] == x) && forall|u: int|
                0 <= u < sv.len() ==> !is_under(x, #[trigger] sv[u]) by {
                if nk.contains(x) && !kv.contains(x) {
                    assert(x == cur@);
                    assert(sv[k as int] == x);
                }
                if kv.contains(x) {
                    let j = choose|j: int| 0 <= j < k && sv[j] == x;
                    assert(nk.contains(x)) by {
                        let m = choose|m: int| 0 <= m < kv.len() && kv[m] == x;
                        assert(nk[m] == x);
                    }
                }
                if (exists|j: int| 0 <= j < k + 1 && sv[j] == x) && forall|u: int|
                    0 <= u < sv.len() ==> !is_under(x, #[trigger] sv[u]) {
                    let j = choose|j: int| 0 <= j < k + 1 && sv[j] == x;
                    if j < k {
                        assert(kv.contains(x));
                        let m = choose|m: int| 0 <= m < kv.len() && kv[m] == x;
                        assert(nk[m] == x);
                    } else {
                        assert(x == cur@);
                        assert(!nested);
                        assert(nk[nk.len() - 1] == x);
                    }
                }
            }
        }
        k += 1;
    }
    proof {
        let kv = views_of(kept@);
        assert forall|x: Seq<char>| #[trigger] kv.contains(x) <==> survives(given, x) by {
            if kv.contains(x) {
                let j = choose|j: int| 0 <= j < sv.len() && sv[j] == x;
                assert(sv.contains(x));
                assert(given_nonempty(given, given.len() as int, x));
                let g = choose|g: int| 0 <= g < given.len() && #[trigger] given[g] == x;
                assert(given.contains(x));
                assert forall|q: int| 0 <= q < given.len() && given[q].len() > 0 implies !is_under(
                    x,
                    #[trigger] given[q],
                ) by {
                    assert(given_nonempty(given, given.len() as int, given[q]));
                    assert(sv.contains(given[q]));
                    let u = choose|u: int| 0 <= u < sv.len() && sv[u] == given[q];
                    assert(!is_under(x, sv[u]));
                }
            }
            if survives(given, x) {
                let g = choose|g: int| 0 <= g < given.len() && given[g] == x;
                assert(given_nonempty(given, given.len() as int, x));
                assert(sv.contains(x));
                let j = choose|j: int| 0 <= j < sv.len() && sv[j] == x;
                assert forall|u: int| 0 <= u < sv.len() implies !is_under(x, #[trigger] sv[u]) by {
                    assert(sv.contains(sv[u]));
                    assert(given_nonempty(given, given.len() as int, sv[u]));
                    let q = choose|q: int| 0 <= q < given.len() && #[trigger] given[q] == sv[u];
                    assert(given[q].len() > 0);
                }
            }
        }
    }
    kept
}

/// `rel` placed under a global `prefix`.
pub fn under(prefix: &str, rel: &str) -> (r: String)
    ensures
        r@ == crate::vfs::spec_join_under(prefix@, rel@),
{
    crate::vfs::join_under(prefix, rel)
}

pub open spec fn spec_join_rel(parent: Seq<char>, child: Seq<char>) -> Seq<char> {
    if parent.len() == 0 {
        child
    } else {
        parent + seq!['/'] + child
    }
}

/// `child` inside the relative directory `parent` (empty for the root).
pub fn join_rel(parent: &str, child: &str) -> (r: String)
    ensures
        r@ == spec_join_rel(parent@, child@),
{
    let pv = chars_of(parent);
    if pv.len() == 0 {
        return child.to_owned();
    }
    let mut v = pv;
    v.push('/');
    let cv = chars_of(child);
    extend(&mut v, cv.as_slice());
    string_of(v.as_slice())
}

/// The grants `disjoint_prefixes` keeps never overlap: no kept prefix lies
/// inside another kept prefix, and none is kept twice.
pub proof fn lemma_kept_grants_never_overlap(given: Seq<Seq<char>>, kept: Seq<Seq<char>>)
    requires
        strictly_sorted(kept),
        forall|x: Seq<char>| #[trigger] kept.contains(x) <==> survives(given, x),
    ensures
        forall|i: int, j: int| 0 <= i < kept.len() && 0 <= j < kept.len() ==> !is_under(#[trigger] kept[i], #[trigger] kept[j]),
        forall|i: int, j: int| 0 <= i < j < kept.len() ==> #[trigger] kept[i] != #[trigger] kept[j],
{
    assert forall|i: int, j: int| 0 <= i < kept.len() && 0 <= j < kept.len() implies !is_under(
        #[trigger] kept[i],
        #[trigger] kept[j],
    ) by {
        assert(kept.contains(kept[i]));
        assert(kept.contains(kept[j]));
        assert(survives(given, kept[i]));
        assert(survives(given, kept[j]));
        let g = choose|g: int| 0 <= g < given.len() && given[g] == kept[j];
        assert(given[g].len() > 0);
    }
    assert forall|i: int, j: int| 0 <= i < j < kept.len() implies #[trigger] kept[i] != #[trigger] kept[j] by {
        lemma_lex_irreflexive(kept[i]);
    }
}

} // verus!
