//! Sequences of `(identifier, value)` entries with unique identifiers, and of
//! plain identifiers: the building blocks of the image cache's stores.
use vstd::prelude::*;

verus! {

/// `s` holds an entry whose identifier reads `k`.
pub open spec fn has_key<X>(s: Seq<(String, X)>, k: Seq<char>) -> bool {
    exists|i: int| 0 <= i < s.len() && (#[trigger] s[i]).0@ == k
}

/// No two entries of `s` share an identifier.
pub open spec fn unique_keys<X>(s: Seq<(String, X)>) -> bool {
    forall|i: int, j: int|
        0 <= i < s.len() && 0 <= j < s.len() && (#[trigger] s[i]).0@ == (#[trigger] s[j]).0@ ==> i
            == j
}

/// The position of the entry for `k` (meaningful when `has_key(s, k)`).
pub open spec fn key_index<X>(s: Seq<(String, X)>, k: Seq<char>) -> int {
    choose|i: int| 0 <= i < s.len() && (#[trigger] s[i]).0@ == k
}

/// `s` without the entry for `k`; the others keep their order.
pub open spec fn remove_key<X>(s: Seq<(String, X)>, k: Seq<char>) -> Seq<(String, X)> {
    if has_key(s, k) {
        s.remove(key_index(s, k))
    } else {
        s
    }
}

/// `s` with the entry `(k, v)` replacing any entry for the same identifier.
pub open spec fn insert_key<X>(s: Seq<(String, X)>, k: String, v: X) -> Seq<(String, X)> {
    remove_key(s, k@).push((k, v))
}

/// `s` holds an identifier that reads `k`.
pub open spec fn has_id(s: Seq<String>, k: Seq<char>) -> bool {
    exists|i: int| 0 <= i < s.len() && (#[trigger] s[i])@ == k
}

/// No identifier occurs twice in `s`.
pub open spec fn unique_ids(s: Seq<String>) -> bool {
    forall|i: int, j: int|
        0 <= i < s.len() && 0 <= j < s.len() && (#[trigger] s[i])@ == (#[trigger] s[j])@ ==> i == j
}

/// The position of `k` in `s` (meaningful when `has_id(s, k)`).
pub open spec fn id_index(s: Seq<String>, k: Seq<char>) -> int {
    choose|i: int| 0 <= i < s.len() && (#[trigger] s[i])@ == k
}

/// `s` without `k`.
pub open spec fn remove_id(s: Seq<String>, k: Seq<char>) -> Seq<String> {
    if has_id(s, k) {
        s.remove(id_index(s, k))
    } else {
        s
    }
}

pub proof fn lemma_key_index<X>(s: Seq<(String, X)>, k: Seq<char>, i: int)
    requires
        unique_keys(s),
        0 <= i < s.len(),
        s[i].0@ == k,
    ensures
        has_key(s, k),
        key_index(s, k) == i,
{
    assert(has_key(s, k));
    let j = key_index(s, k);
    assert(s[j].0@ == s[i].0@);
}

pub proof fn lemma_id_index(s: Seq<String>, k: Seq<char>, i: int)
    requires
        unique_ids(s),
        0 <= i < s.len(),
        s[i]@ == k,
    ensures
        has_id(s, k),
        id_index(s, k) == i,
{
    assert(has_id(s, k));
    let j = id_index(s, k);
    assert(s[j]@ == s[i]@);
}

/// Removing the entry for `k` keeps the identifiers unique, drops `k`, and
/// keeps every other identifier.
pub proof fn lemma_remove_key<X>(s: Seq<(String, X)>, k: Seq<char>)
    requires
        unique_keys(s),
    ensures
        unique_keys(remove_key(s, k)),
        !has_key(remove_key(s, k), k),
        forall|q: Seq<char>| q != k ==> (has_key(remove_key(s, k), q) == has_key(s, q)),
        remove_key(s, k).len() == if has_key(s, k) { s.len() - 1 } else { s.len() as int },
{
    if has_key(s, k) {
        let i = key_index(s, k);
        let r = s.remove(i);
        assert forall|a: int, b: int|
            0 <= a < r.len() && 0 <= b < r.len() && (#[trigger] r[a]).0@ == (#[trigger] r[b]).0@ implies a
            == b by {
            let a2 = if a < i { a } else { a + 1 };
            let b2 = if b < i { b } else { b + 1 };
            assert(s[a2].0@ == s[b2].0@);
        }
        if has_key(r, k) {
            let j = choose|j: int| 0 <= j < r.len() && (#[trigger] r[j]).0@ == k;
            let j2 = if j < i { j } else { j + 1 };
            assert(s[j2].0@ == s[i].0@);
        }
        assert forall|q: Seq<char>| q != k implies (has_key(r, q) == has_key(s, q)) by {
            if has_key(s, q) {
                let j = choose|j: int| 0 <= j < s.len() && (#[trigger] s[j]).0@ == q;
                let j2 = if j < i { j } else { j - 1 };
                assert(r[j2].0@ == q);
            }
            if has_key(r, q) {
                let j = choose|j: int| 0 <= j < r.len() && (#[trigger] r[j]).0@ == q;
                let j2 = if j < i { j } else { j + 1 };
                assert(s[j2].0@ == q);
            }
        }
    }
}

/// Adding an entry under a fresh identifier keeps the identifiers unique.
pub proof fn lemma_push_fresh<X>(s: Seq<(String, X)>, k: String, v: X)
    requires
        unique_keys(s),
        !has_key(s, k@),
    ensures
        unique_keys(s.push((k, v))),
        has_key(s.push((k, v)), k@),
        forall|q: Seq<char>| q != k@ ==> (has_key(s.push((k, v)), q) == has_key(s, q)),
{
    let r = s.push((k, v));
    assert(r[s.len() as int].0@ == k@);
    assert forall|a: int, b: int|
        0 <= a < r.len() && 0 <= b < r.len() && (#[trigger] r[a]).0@ == (#[trigger] r[b]).0@ implies a
        == b by {
        if a < s.len() && b == s.len() {
            assert(s[a].0@ == k@);
        }
        if b < s.len() && a == s.len() {
            assert(s[b].0@ == k@);
        }
    }
    assert forall|q: Seq<char>| q != k@ implies (has_key(r, q) == has_key(s, q)) by {
        if has_key(s, q) {
            let j = choose|j: int| 0 <= j < s.len() && (#[trigger] s[j]).0@ == q;
            assert(r[j].0@ == q);
        }
        if has_key(r, q) {
            let j = choose|j: int| 0 <= j < r.len() && (#[trigger] r[j]).0@ == q;
            assert(s[j].0@ == q);
        }
    }
}

/// Removing `k` keeps the identifiers unique, drops `k`, and keeps the others.
pub proof fn lemma_remove_id(s: Seq<String>, k: Seq<char>)
    requires
        unique_ids(s),
    ensures
        unique_ids(remove_id(s, k)),
        !has_id(remove_id(s, k), k),
        forall|q: Seq<char>| q != k ==> (has_id(remove_id(s, k), q) == has_id(s, q)),
{
    if has_id(s, k) {
        let i = id_index(s, k);
        let r = s.remove(i);
        assert forall|a: int, b: int|
            0 <= a < r.len() && 0 <= b < r.len() && (#[trigger] r[a])@ == (#[trigger] r[b])@ implies a
            == b by {
            let a2 = if a < i { a } else { a + 1 };
            let b2 = if b < i { b } else { b + 1 };
            assert(s[a2]@ == s[b2]@);
        }
        if has_id(r, k) {
            let j = choose|j: int| 0 <= j < r.len() && (#[trigger] r[j])@ == k;
            let j2 = if j < i { j } else { j + 1 };
            assert(s[j2]@ == s[i]@);
        }
        assert forall|q: Seq<char>| q != k implies (has_id(r, q) == has_id(s, q)) by {
            if has_id(s, q) {
                let j = choose|j: int| 0 <= j < s.len() && (#[trigger] s[j])@ == q;
                let j2 = if j < i { j } else { j - 1 };
                assert(r[j2]@ == q);
            }
            if has_id(r, q) {
                let j = choose|j: int| 0 <= j < r.len() && (#[trigger] r[j])@ == q;
                let j2 = if j < i { j } else { j + 1 };
                assert(s[j2]@ == q);
            }
        }
    }
}

/// The position of the entry for `k` in `v`, if there is one.
pub fn key_position<X>(v: &Vec<(String, X)>, k: &String) -> (r: Option<usize>)
    ensures
        match r {
            Some(i) => i < v@.len() && v@[i as int].0@ == k@,
            None => !has_key(v@, k@),
        },
{
    let mut i: usize = 0;
    while i < v.len()
        invariant
            i <= v@.len(),
            forall|j: int| 0 <= j < i ==> (#[trigger] v@[j]).0@ != k@,
        decreases v@.len() - i,
    {
        if v[i].0 == *k {
            return Some(i);
        }
        i += 1;
    }
    None
}

/// The position of `k` in `v`, if it is there.
pub fn id_position(v: &Vec<String>, k: &String) -> (r: Option<usize>)
    ensures
        match r {
            Some(i) => i < v@.len() && v@[i as int]@ == k@,
            None => !has_id(v@, k@),
        },
{
    let mut i: usize = 0;
    while i < v.len()
        invariant
            i <= v@.len(),
            forall|j: int| 0 <= j < i ==> (#[trigger] v@[j])@ != k@,
        decreases v@.len() - i,
    {
        if v[i] == *k {
            return Some(i);
        }
        i += 1;
    }
    None
}

} // verus!
