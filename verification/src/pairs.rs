//! Lists of `(key, value)` string pairs read as maps: the last pair with a
//! key gives its value, so appending a pair overrides earlier ones.

use vstd::prelude::*;
use crate::text::str_eq;

verus! {

broadcast use vstd::string::group_string_axioms;

/// The value a key ends up with: the last pair that has it.
pub open spec fn last_value(ps: Seq<(Seq<char>, Seq<char>)>, k: Seq<char>) -> Option<Seq<char>>
    decreases ps.len(),
{
    if ps.len() == 0 {
        None
    } else if ps.last().0 == k {
        Some(ps.last().1)
    } else {
        last_value(ps.drop_last(), k)
    }
}

/// Whether some pair has key `k`.
pub open spec fn has_key(ps: Seq<(Seq<char>, Seq<char>)>, k: Seq<char>) -> bool {
    exists|i: int| 0 <= i < ps.len() && (#[trigger] ps[i]).0 == k
}

/// A key has a last value exactly when some pair has it.
pub proof fn lemma_last_value_some(ps: Seq<(Seq<char>, Seq<char>)>, k: Seq<char>)
    ensures
        last_value(ps, k) is Some <==> has_key(ps, k),
    decreases ps.len(),
{
    if ps.len() > 0 {
        lemma_last_value_some(ps.drop_last(), k);
        if has_key(ps, k) && ps.last().0 != k {
            let i = choose|i: int| 0 <= i < ps.len() && (#[trigger] ps[i]).0 == k;
            assert(ps.drop_last()[i].0 == k);
        }
        if has_key(ps.drop_last(), k) {
            let i = choose|i: int| 0 <= i < ps.drop_last().len() && (#[trigger] ps.drop_last()[i]).0 == k;
            assert(ps[i].0 == k);
        }
    }
}

/// The view of a list of string pairs.
pub open spec fn pairs_view(v: Seq<(String, String)>) -> Seq<(Seq<char>, Seq<char>)> {
    v.map_values(|p: (String, String)| (p.0@, p.1@))
}

/// The last value of `k` among the pairs.
pub fn find_last(ps: &Vec<(String, String)>, k: &String) -> (r: Option<String>)
    ensures
        match last_value(pairs_view(ps@), k@) {
            Some(v) => r matches Some(s) && s@ == v,
            None => r is None,
        },
{
    let mut j: usize = ps.len();
    proof {
        assert(ps@.take(j as int) == ps@);
    }
    while j > 0
        invariant
            j <= ps@.len(),
            last_value(pairs_view(ps@), k@) == last_value(pairs_view(ps@.take(j as int)), k@),
        decreases j,
    {
        proof {
            assert(pairs_view(ps@.take(j as int)).drop_last() == pairs_view(ps@.take(j - 1)));
            assert(pairs_view(ps@.take(j as int)).last() == (ps@[j - 1].0@, ps@[j - 1].1@));
        }
        if str_eq(ps[j - 1].0.as_str(), k.as_str()) {
            return Some(ps[j - 1].1.clone());
        }
        j = j - 1;
    }
    None
}

/// Looking a key up in `a + b`: `b` wins where it has the key.
pub proof fn lemma_last_value_append(a: Seq<(Seq<char>, Seq<char>)>, b: Seq<(Seq<char>, Seq<char>)>, k: Seq<char>)
    ensures
        last_value(a + b, k) == match last_value(b, k) {
            Some(v) => Some(v),
            None => last_value(a, k),
        },
    decreases b.len(),
{
    if b.len() == 0 {
        assert(a + b == a);
    } else {
        assert((a + b).drop_last() == a + b.drop_last());
        assert((a + b).last() == b.last());
        lemma_last_value_append(a, b.drop_last(), k);
    }
}

/// A copy of the pairs.
pub fn clone_pairs(v: &Vec<(String, String)>) -> (r: Vec<(String, String)>)
    ensures
        pairs_view(r@) == pairs_view(v@),
{
    let mut r: Vec<(String, String)> = Vec::new();
    let mut i: usize = 0;
    while i < v.len()
        invariant
            i <= v@.len(),
            pairs_view(r@) == pairs_view(v@).take(i as int),
        decreases v@.len() - i,
    {
        let k = crate::text::to_owned_string(v[i].0.as_str());
        let x = crate::text::to_owned_string(v[i].1.as_str());
        let ghost old_r = r@;
        r.push((k, x));
        proof {
            assert(pairs_view(r@) =~= pairs_view(old_r).push((v@[i as int].0@, v@[i as int].1@)));
            assert(pairs_view(v@).take(i + 1) =~= pairs_view(v@).take(i as int).push((v@[i as int].0@, v@[i as int].1@)));
        }
        i = i + 1;
    }
    proof {
        assert(pairs_view(v@).take(v@.len() as int) == pairs_view(v@));
    }
    r
}

} // verus!
