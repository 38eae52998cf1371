//! Ordering lists by a key, highest first, keeping the order of equal keys.
use vstd::prelude::*;

verus! {

/// `x` placed into `sorted` after every element whose key is not below its own.
pub open spec fn insert_desc_by<T>(sorted: Seq<T>, x: T, key: spec_fn(T) -> int) -> Seq<T>
    decreases sorted.len(),
{
    if sorted.len() == 0 || key(sorted.last()) >= key(x) {
        sorted.push(x)
    } else {
        insert_desc_by(sorted.drop_last(), x, key).push(sorted.last())
    }
}

/// `s` ordered by `key`, highest first, elements with equal keys kept in their order.
pub open spec fn sort_desc_by<T>(s: Seq<T>, key: spec_fn(T) -> int) -> Seq<T>
    decreases s.len(),
{
    if s.len() == 0 {
        s
    } else {
        insert_desc_by(sort_desc_by(s.drop_last(), key), s.last(), key)
    }
}

/// Keys do not increase along `s`.
pub open spec fn descending_by<T>(s: Seq<T>, key: spec_fn(T) -> int) -> bool {
    forall|i: int, j: int| 0 <= i < j < s.len() ==> key(#[trigger] s[i]) >= key(#[trigger] s[j])
}

proof fn lemma_insert_position<T>(s: Seq<T>, x: T, key: spec_fn(T) -> int) -> (j: int)
    ensures
        0 <= j <= s.len(),
        insert_desc_by(s, x, key) == s.insert(j, x),
        forall|k: int| j <= k < s.len() ==> key(#[trigger] s[k]) < key(x),
        j > 0 ==> key(s[j - 1]) >= key(x),
    decreases s.len(),
{
    if s.len() == 0 || key(s.last()) >= key(x) {
        assert(s.push(x) =~= s.insert(s.len() as int, x));
        s.len() as int
    } else {
        let j = lemma_insert_position(s.drop_last(), x, key);
        assert(s.drop_last().insert(j, x).push(s.last()) =~= s.insert(j, x));
        assert forall|k: int| j <= k < s.len() implies key(#[trigger] s[k]) < key(x) by {
            if k < s.len() - 1 {
                assert(s[k] == s.drop_last()[k]);
            }
        }
        j
    }
}

/// Placing an element keeps a descending list descending and adds exactly that element.
pub proof fn law_insert_desc_by<T>(s: Seq<T>, x: T, key: spec_fn(T) -> int)
    requires
        descending_by(s, key),
    ensures
        descending_by(insert_desc_by(s, x, key), key),
        insert_desc_by(s, x, key).to_multiset() == s.to_multiset().insert(x),
{
    let j = lemma_insert_position(s, x, key);
    let r = s.insert(j, x);
    vstd::seq_lib::to_multiset_insert(s, j, x);
    assert forall|a: int, b: int| 0 <= a < b < r.len() implies key(#[trigger] r[a]) >= key(
        #[trigger] r[b],
    ) by {
        if b < j {
        } else if b == j {
            if a < j - 1 {
                assert(key(s[a]) >= key(s[j - 1]));
            }
        } else if a < j {
            assert(key(s[a]) >= key(s[b - 1]));
        } else if a == j {
        } else {
        }
    }
}

/// Sorting yields a list whose keys do not increase and which holds exactly the
/// elements it was given.
pub proof fn law_sort_desc_by<T>(s: Seq<T>, key: spec_fn(T) -> int)
    ensures
        descending_by(sort_desc_by(s, key), key),
        sort_desc_by(s, key).to_multiset() == s.to_multiset(),
    decreases s.len(),
{
    if s.len() > 0 {
        law_sort_desc_by(s.drop_last(), key);
        law_insert_desc_by(sort_desc_by(s.drop_last(), key), s.last(), key);
        vstd::seq_lib::to_multiset_build(s.drop_last(), s.last());
        assert(s.drop_last().push(s.last()) == s);
    }
}

/// Sorting a list that is already descending leaves it as it is.
pub proof fn law_sort_desc_by_sorted<T>(s: Seq<T>, key: spec_fn(T) -> int)
    requires
        descending_by(s, key),
    ensures
        sort_desc_by(s, key) == s,
    decreases s.len(),
{
    if s.len() > 0 {
        assert(descending_by(s.drop_last(), key));
        law_sort_desc_by_sorted(s.drop_last(), key);
        assert(s.drop_last().push(s.last()) == s);
    }
}

} // verus!
