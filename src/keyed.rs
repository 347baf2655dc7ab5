//! Sequences whose elements carry unique keys, read as finite maps.

use vstd::prelude::*;

verus! {

pub open spec fn keys_unique<T, K>(s: Seq<T>, key: spec_fn(T) -> K) -> bool {
    forall|i: int, j: int| 0 <= i < s.len() && 0 <= j < s.len() && i != j ==> key(#[trigger] s[i]) != key(#[trigger] s[j])
}

pub open spec fn has_key<T, K>(s: Seq<T>, key: spec_fn(T) -> K, k: K) -> bool {
    exists|i: int| 0 <= i < s.len() && key(#[trigger] s[i]) == k
}

/// The element of `s` with key `k`, if any.
pub open spec fn lookup<T, K>(s: Seq<T>, key: spec_fn(T) -> K, k: K) -> Option<T> {
    if has_key(s, key, k) {
        Some(s[choose|i: int| 0 <= i < s.len() && key(#[trigger] s[i]) == k])
    } else {
        None
    }
}

pub proof fn lemma_lookup_at<T, K>(s: Seq<T>, key: spec_fn(T) -> K, i: int)
    requires
        keys_unique(s, key),
        0 <= i < s.len(),
    ensures
        lookup(s, key, key(s[i])) == Some(s[i]),
{
    let k = key(s[i]);
    assert(has_key(s, key, k));
    let c = choose|c: int| 0 <= c < s.len() && key(#[trigger] s[c]) == k;
    assert(c == i);
}

pub proof fn lemma_lookup_push<T, K>(s: Seq<T>, key: spec_fn(T) -> K, x: T)
    requires
        keys_unique(s, key),
        !has_key(s, key, key(x)),
    ensures
        keys_unique(s.push(x), key),
        lookup(s.push(x), key, key(x)) == Some(x),
        forall|k: K| k != key(x) ==> lookup(s.push(x), key, k) == lookup(s, key, k),
{
    let t = s.push(x);
    assert forall|i: int, j: int| 0 <= i < t.len() && 0 <= j < t.len() && i != j implies key(#[trigger] t[i]) != key(#[trigger] t[j]) by {
        if i == s.len() {
            assert(t[j] == s[j]);
        } else if j == s.len() {
            assert(t[i] == s[i]);
        } else {
            assert(t[i] == s[i] && t[j] == s[j]);
        }
    }
    lemma_lookup_at(t, key, s.len() as int);
    assert forall|k: K| k != key(x) implies lookup(t, key, k) == lookup(s, key, k) by {
        if has_key(s, key, k) {
            let i = choose|i: int| 0 <= i < s.len() && key(#[trigger] s[i]) == k;
            assert(t[i] == s[i]);
            lemma_lookup_at(s, key, i);
            lemma_lookup_at(t, key, i);
        } else {
            if has_key(t, key, k) {
                let i = choose|i: int| 0 <= i < t.len() && key(#[trigger] t[i]) == k;
                assert(i < s.len());
                assert(t[i] == s[i]);
            }
        }
    }
}

pub proof fn lemma_lookup_update<T, K>(s: Seq<T>, key: spec_fn(T) -> K, i: int, x: T)
    requires
        keys_unique(s, key),
        0 <= i < s.len(),
        key(x) == key(s[i]),
    ensures
        keys_unique(s.update(i, x), key),
        lookup(s.update(i, x), key, key(x)) == Some(x),
        forall|k: K| k != key(x) ==> lookup(s.update(i, x), key, k) == lookup(s, key, k),
{
    let t = s.update(i, x);
    assert forall|a: int, b: int| 0 <= a < t.len() && 0 <= b < t.len() && a != b implies key(#[trigger] t[a]) != key(#[trigger] t[b]) by {
        assert(key(t[a]) == key(s[a]));
        assert(key(t[b]) == key(s[b]));
    }
    lemma_lookup_at(t, key, i);
    assert forall|k: K| k != key(x) implies lookup(t, key, k) == lookup(s, key, k) by {
        if has_key(s, key, k) {
            let j = choose|j: int| 0 <= j < s.len() && key(#[trigger] s[j]) == k;
            assert(j != i);
            assert(t[j] == s[j]);
            lemma_lookup_at(s, key, j);
            lemma_lookup_at(t, key, j);
        } else {
            if has_key(t, key, k) {
                let j = choose|j: int| 0 <= j < t.len() && key(#[trigger] t[j]) == k;
                assert(j != i);
                assert(t[j] == s[j]);
            }
        }
    }
}

pub proof fn lemma_lookup_remove<T, K>(s: Seq<T>, key: spec_fn(T) -> K, i: int)
    requires
        keys_unique(s, key),
        0 <= i < s.len(),
    ensures
        keys_unique(s.remove(i), key),
        lookup(s.remove(i), key, key(s[i])).is_none(),
        forall|k: K| k != key(s[i]) ==> lookup(s.remove(i), key, k) == lookup(s, key, k),
{
    let t = s.remove(i);
    assert forall|a: int, b: int| 0 <= a < t.len() && 0 <= b < t.len() && a != b implies key(#[trigger] t[a]) != key(#[trigger] t[b]) by {
        let a2 = if a < i { a } else { a + 1 };
        let b2 = if b < i { b } else { b + 1 };
        assert(t[a] == s[a2]);
        assert(t[b] == s[b2]);
    }
    if has_key(t, key, key(s[i])) {
        let j = choose|j: int| 0 <= j < t.len() && key(#[trigger] t[j]) == key(s[i]);
        let j2 = if j < i { j } else { j + 1 };
        assert(t[j] == s[j2]);
    }
    assert forall|k: K| k != key(s[i]) implies lookup(t, key, k) == lookup(s, key, k) by {
        if has_key(s, key, k) {
            let j = choose|j: int| 0 <= j < s.len() && key(#[trigger] s[j]) == k;
            assert(j != i);
            let j2 = if j < i { j } else { j - 1 };
            assert(t[j2] == s[j]);
            lemma_lookup_at(s, key, j);
            lemma_lookup_at(t, key, j2);
        } else {
            if has_key(t, key, k) {
                let j = choose|j: int| 0 <= j < t.len() && key(#[trigger] t[j]) == k;
                let j2 = if j < i { j } else { j + 1 };
                assert(t[j] == s[j2]);
            }
        }
    }
}

} // verus!
