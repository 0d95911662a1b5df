//! Maps from strings to values, kept as a list of entries sorted by key.
//!
//! Keys are ordered as `String`s are: lexicographically by character code,
//! so the entries come out in the order a `BTreeMap<String, _>` walks them.
use vstd::prelude::*;
use crate::text::same;

verus! {

/// `a < b` for strings.
pub open spec fn str_lt(a: Seq<char>, b: Seq<char>) -> bool
    decreases a.len(),
{
    if a.len() == 0 {
        b.len() > 0
    } else if b.len() == 0 {
        false
    } else if a[0] != b[0] {
        a[0] < b[0]
    } else {
        str_lt(a.drop_first(), b.drop_first())
    }
}

pub proof fn lemma_str_lt_irrefl(a: Seq<char>)
    ensures
        !str_lt(a, a),
    decreases a.len(),
{
    if a.len() > 0 {
        lemma_str_lt_irrefl(a.drop_first());
    }
}

pub proof fn lemma_str_lt_trans(a: Seq<char>, b: Seq<char>, c: Seq<char>)
    requires
        str_lt(a, b),
        str_lt(b, c),
    ensures
        str_lt(a, c),
    decreases a.len(),
{
    if a.len() > 0 && b.len() > 0 && c.len() > 0 {
        if a[0] == b[0] && b[0] == c[0] {
            lemma_str_lt_trans(a.drop_first(), b.drop_first(), c.drop_first());
        }
    }
}

pub proof fn lemma_str_lt_total(a: Seq<char>, b: Seq<char>)
    ensures
        a == b || str_lt(a, b) || str_lt(b, a),
    decreases a.len(),
{
    if a.len() > 0 && b.len() > 0 {
        if a[0] == b[0] {
            lemma_str_lt_total(a.drop_first(), b.drop_first());
            if a.drop_first() == b.drop_first() {
                assert(a =~= seq![a[0]] + a.drop_first());
                assert(b =~= seq![b[0]] + b.drop_first());
            }
        }
    } else if a.len() == 0 && b.len() == 0 {
        assert(a =~= b);
    }
}

fn str_less(a: &[char], b: &[char]) -> (r: bool)
    ensures
        r == str_lt(a@, b@),
{
    let mut i: usize = 0;
    assert(a@.skip(0) =~= a@);
    assert(b@.skip(0) =~= b@);
    while i < a.len() && i < b.len() && a[i] == b[i]
        invariant
            i <= a@.len(),
            i <= b@.len(),
            str_lt(a@.skip(i as int), b@.skip(i as int)) == str_lt(a@, b@),
        decreases a@.len() - i,
    {
        assert(a@.skip(i as int).drop_first() =~= a@.skip(i + 1));
        assert(b@.skip(i as int).drop_first() =~= b@.skip(i + 1));
        assert(a@.skip(i as int)[0] == a@[i as int]);
        assert(b@.skip(i as int)[0] == b@[i as int]);
        i = i + 1;
    }
    proof {
        if i < a@.len() {
            assert(a@.skip(i as int)[0] == a@[i as int]);
        }
        if i < b@.len() {
            assert(b@.skip(i as int)[0] == b@[i as int]);
        }
    }
    if i == a.len() {
        i < b.len()
    } else if i == b.len() {
        false
    } else {
        a[i] < b[i]
    }
}

/// Index of the first entry with key `k`.
pub open spec fn find_key<M>(s: Seq<(Seq<char>, M)>, k: Seq<char>) -> Option<int>
    decreases s.len(),
{
    if s.len() == 0 {
        None
    } else if s[0].0 == k {
        Some(0)
    } else {
        match find_key(s.drop_first(), k) {
            Some(i) => Some(i + 1),
            None => None,
        }
    }
}

/// The value stored under `k`.
pub open spec fn kv_get<M>(s: Seq<(Seq<char>, M)>, k: Seq<char>) -> Option<M> {
    match find_key(s, k) {
        Some(i) => Some(s[i].1),
        None => None,
    }
}

/// Number of leading entries whose key is below `k`.
pub open spec fn lower_bound<M>(s: Seq<(Seq<char>, M)>, k: Seq<char>) -> nat
    decreases s.len(),
{
    if s.len() > 0 && str_lt(s[0].0, k) {
        1 + lower_bound(s.drop_first(), k)
    } else {
        0
    }
}

/// `BTreeMap::insert`: replace the entry under `k`, or add one in key order.
pub open spec fn kv_insert<M>(s: Seq<(Seq<char>, M)>, k: Seq<char>, v: M) -> Seq<(Seq<char>, M)> {
    let p = lower_bound(s, k) as int;
    if p < s.len() && s[p].0 == k {
        s.update(p, (k, v))
    } else {
        s.insert(p, (k, v))
    }
}

/// Keys strictly increasing.
pub open spec fn sorted_keys<M>(s: Seq<(Seq<char>, M)>) -> bool {
    forall|i: int, j: int| 0 <= i < j < s.len() ==> str_lt(#[trigger] s[i].0, #[trigger] s[j].0)
}

pub open spec fn kv_view<V: View>(s: Seq<(String, V)>) -> Seq<(Seq<char>, V::V)> {
    s.map_values(|e: (String, V)| (e.0@, e.1@))
}

proof fn lemma_find_key_skip<M>(s: Seq<(Seq<char>, M)>, k: Seq<char>, i: int)
    requires
        0 <= i <= s.len(),
        forall|j: int| 0 <= j < i ==> #[trigger] s[j].0 != k,
    ensures
        find_key(s, k) == (match find_key(s.skip(i), k) {
            Some(x) => Some(x + i),
            None => None,
        }),
    decreases i,
{
    if i > 0 {
        assert(s.drop_first().skip(i - 1) =~= s.skip(i));
        lemma_find_key_skip(s.drop_first(), k, i - 1);
    } else {
        assert(s.skip(0) =~= s);
    }
}

/// Position of the entry with key `k`.
pub fn kv_find<V: View>(m: &Vec<(String, V)>, k: &[char]) -> (r: Option<usize>)
    ensures
        match r {
            Some(i) => find_key(kv_view(m@), k@) == Some(i as int) && i < m@.len(),
            None => find_key(kv_view(m@), k@) is None,
        },
{
    let ghost s = kv_view(m@);
    let mut i: usize = 0;
    while i < m.len()
        invariant
            i <= m@.len(),
            s == kv_view(m@),
            forall|j: int| 0 <= j < i ==> #[trigger] s[j].0 != k@,
        decreases m@.len() - i,
    {
        let key = crate::text::chars_of(m[i].0.as_str());
        if same(&key, k) {
            proof {
                lemma_find_key_skip(s, k@, i as int);
                assert(s.skip(i as int)[0].0 == k@);
            }
            return Some(i);
        }
        i = i + 1;
    }
    proof {
        lemma_find_key_skip(s, k@, i as int);
    }
    None
}

proof fn lemma_lower_bound_skip<M>(s: Seq<(Seq<char>, M)>, k: Seq<char>, i: int)
    requires
        0 <= i <= s.len(),
        forall|j: int| 0 <= j < i ==> str_lt(#[trigger] s[j].0, k),
    ensures
        lower_bound(s, k) == i + lower_bound(s.skip(i), k),
    decreases i,
{
    if i > 0 {
        assert(s.drop_first().skip(i - 1) =~= s.skip(i));
        lemma_lower_bound_skip(s.drop_first(), k, i - 1);
    } else {
        assert(s.skip(0) =~= s);
    }
}

/// `BTreeMap::insert`; returns whether an entry with that key was replaced.
pub fn kv_put<V: View>(m: &mut Vec<(String, V)>, k: String, v: V) -> (replaced: bool)
    ensures
        kv_view(final(m)@) == kv_insert(kv_view(old(m)@), k@, v@),
        replaced == {
            let p = lower_bound(kv_view(old(m)@), k@) as int;
            p < old(m)@.len() && kv_view(old(m)@)[p].0 == k@
        },
{
    let ghost s = kv_view(m@);
    let kc = crate::text::chars_of(k.as_str());
    let mut i: usize = 0;
    let mut go = true;
    while go && i < m.len()
        invariant
            i <= m@.len(),
            s == kv_view(m@),
            kc@ == k@,
            forall|j: int| 0 <= j < i ==> str_lt(#[trigger] s[j].0, k@),
            !go ==> i < m@.len() && !str_lt(s[i as int].0, k@),
        decreases m@.len() - i + (if go { 1int } else { 0int }),
    {
        let key = crate::text::chars_of(m[i].0.as_str());
        if str_less(&key, &kc) {
            i = i + 1;
        } else {
            go = false;
        }
    }
    proof {
        lemma_lower_bound_skip(s, k@, i as int);
        if i < s.len() {
            assert(s.skip(i as int)[0] == s[i as int]);
        }
    }
    if i < m.len() {
        let key = crate::text::chars_of(m[i].0.as_str());
        if same(&key, &kc) {
            let ghost e = (k, v);
            m.set(i, (k, v));
            assert(kv_view(m@) =~= s.update(i as int, (e.0@, e.1@)));
            return true;
        }
    }
    let ghost e = (k, v);
    m.insert(i, (k, v));
    assert(kv_view(m@) =~= s.insert(i as int, (e.0@, e.1@)));
    false
}

proof fn lemma_lower_bound_sorted<M>(s: Seq<(Seq<char>, M)>, k: Seq<char>)
    requires
        sorted_keys(s),
    ensures
        lower_bound(s, k) <= s.len(),
        forall|j: int| 0 <= j < lower_bound(s, k) ==> str_lt(#[trigger] s[j].0, k),
        forall|j: int| lower_bound(s, k) <= j < s.len() ==> !str_lt(#[trigger] s[j].0, k),
    decreases s.len(),
{
    if s.len() > 0 {
        let t = s.drop_first();
        assert(sorted_keys(t)) by {
            assert forall|i: int, j: int| 0 <= i < j < t.len() implies str_lt(
                #[trigger] t[i].0,
                #[trigger] t[j].0,
            ) by {
                assert(t[i] == s[i + 1] && t[j] == s[j + 1]);
            }
        }
        lemma_lower_bound_sorted(t, k);
        if str_lt(s[0].0, k) {
            assert forall|j: int| 0 <= j < lower_bound(s, k) implies str_lt(#[trigger] s[j].0, k) by {
                if j > 0 {
                    assert(s[j] == t[j - 1]);
                }
            }
            assert forall|j: int| lower_bound(s, k) <= j < s.len() implies !str_lt(
                #[trigger] s[j].0,
                k,
            ) by {
                assert(s[j] == t[j - 1]);
            }
        } else {
            assert forall|j: int| 0 <= j < s.len() implies !str_lt(#[trigger] s[j].0, k) by {
                if j > 0 && str_lt(s[j].0, k) {
                    assert(str_lt(s[0].0, s[j].0));
                    lemma_str_lt_trans(s[0].0, s[j].0, k);
                }
            }
        }
    }
}

/// Inserting keeps the keys sorted and makes `k` map to `v`.
pub proof fn lemma_kv_insert<M>(s: Seq<(Seq<char>, M)>, k: Seq<char>, v: M)
    requires
        sorted_keys(s),
    ensures
        sorted_keys(kv_insert(s, k, v)),
        kv_get(kv_insert(s, k, v), k) == Some(v),
        forall|k2: Seq<char>| k2 != k ==> kv_get(kv_insert(s, k, v), k2) == kv_get(s, k2),
{
    lemma_lower_bound_sorted(s, k);
    let p = lower_bound(s, k) as int;
    let r = kv_insert(s, k, v);
    if p < s.len() && s[p].0 == k {
        assert(sorted_keys(r)) by {
            assert forall|i: int, j: int| 0 <= i < j < r.len() implies str_lt(
                #[trigger] r[i].0,
                #[trigger] r[j].0,
            ) by {
                assert(r[i].0 == s[i].0 && r[j].0 == s[j].0);
            }
        }
    } else {
        assert(sorted_keys(r)) by {
            assert forall|i: int, j: int| 0 <= i < j < r.len() implies str_lt(
                #[trigger] r[i].0,
                #[trigger] r[j].0,
            ) by {
                if j < p {
                    assert(r[i] == s[i] && r[j] == s[j]);
                } else if j == p {
                    assert(r[i] == s[i]);
                } else if i == p {
                    assert(r[j] == s[j - 1]);
                    lemma_str_lt_total(s[j - 1].0, k);
                } else if i < p {
                    assert(r[i] == s[i] && r[j] == s[j - 1]);
                } else {
                    assert(r[i] == s[i - 1] && r[j] == s[j - 1]);
                }
            }
        }
    }
    assert(r[p] == (k, v));
    lemma_find_sorted(r, k);
    assert(r[p].0 == k);
    assert forall|k2: Seq<char>| k2 != k implies kv_get(r, k2) == kv_get(s, k2) by {
        lemma_find_sorted(r, k2);
        lemma_find_sorted(s, k2);
        if kv_get(s, k2) is Some {
            let i = find_key(s, k2)->0;
            if p < s.len() && s[p].0 == k {
                assert(r[i] == s[i]);
            } else if i < p {
                assert(r[i] == s[i]);
            } else {
                assert(r[i + 1] == s[i]);
            }
        }
        if kv_get(r, k2) is Some {
            let i = find_key(r, k2)->0;
            if p < s.len() && s[p].0 == k {
                assert(r[i] == s[i]);
            } else if i < p {
                assert(r[i] == s[i]);
            } else {
                assert(i != p);
                assert(r[i] == s[i - 1]);
            }
        }
    }
    if p < s.len() && s[p].0 == k {
        assert(r[p] == (k, v));
    } else {
        assert(r[p] == (k, v));
    }
}

/// In a sorted list, `find_key` finds the unique entry with that key.
pub proof fn lemma_find_sorted<M>(s: Seq<(Seq<char>, M)>, k: Seq<char>)
    requires
        sorted_keys(s),
    ensures
        match find_key(s, k) {
            Some(i) => 0 <= i < s.len() && s[i].0 == k,
            None => forall|j: int| 0 <= j < s.len() ==> #[trigger] s[j].0 != k,
        },
        forall|j: int| 0 <= j < s.len() && #[trigger] s[j].0 == k ==> find_key(s, k) == Some(j),
    decreases s.len(),
{
    if s.len() > 0 {
        let t = s.drop_first();
        assert(sorted_keys(t)) by {
            assert forall|i: int, j: int| 0 <= i < j < t.len() implies str_lt(
                #[trigger] t[i].0,
                #[trigger] t[j].0,
            ) by {
                assert(t[i] == s[i + 1] && t[j] == s[j + 1]);
            }
        }
        lemma_find_sorted(t, k);
        assert forall|j: int| 0 <= j < s.len() && #[trigger] s[j].0 == k implies find_key(s, k)
            == Some(j) by {
            if j > 0 {
                assert(t[j - 1] == s[j]);
                if s[0].0 == k {
                    assert(str_lt(s[0].0, s[j].0));
                    lemma_str_lt_irrefl(k);
                }
            }
        }
        match find_key(t, k) {
            Some(i) => {
                assert(t[i] == s[i + 1]);
            },
            None => {
                assert forall|j: int| 0 <= j < s.len() && s[0].0 != k implies #[trigger] s[j].0
                    != k by {
                    if j > 0 {
                        assert(t[j - 1] == s[j]);
                    }
                }
            },
        }
    }
}

/// What `find_key` finds carries the key it was asked for.
pub proof fn lemma_find_key_found<M>(s: Seq<(Seq<char>, M)>, k: Seq<char>)
    ensures
        match find_key(s, k) {
            Some(i) => 0 <= i < s.len() && s[i].0 == k,
            None => forall|j: int| 0 <= j < s.len() ==> #[trigger] s[j].0 != k,
        },
    decreases s.len(),
{
    if s.len() > 0 {
        let t = s.drop_first();
        lemma_find_key_found(t, k);
        match find_key(t, k) {
            Some(i) => {
                assert(t[i] == s[i + 1]);
            },
            None => {
                assert forall|j: int| 0 <= j < s.len() && s[0].0 != k implies #[trigger] s[j].0
                    != k by {
                    if j > 0 {
                        assert(t[j - 1] == s[j]);
                    }
                }
            },
        }
    }
}

} // verus!
