//! Stable ordering of records by integer keys.
use vstd::prelude::*;

verus! {

/// A sort key: compared field by field.
pub type SortKey = (u8, i64, i64);

/// `a` sorts strictly before `b`.
pub open spec fn key_lt(a: SortKey, b: SortKey) -> bool {
    a.0 < b.0 || (a.0 == b.0 && (a.1 < b.1 || (a.1 == b.1 && a.2 < b.2)))
}

/// Position `a` comes before position `b` in the stable order of `keys`:
/// its key is smaller, or equal and it stands earlier.
pub open spec fn ordered_before(keys: Seq<SortKey>, a: int, b: int) -> bool {
    key_lt(keys[a], keys[b]) || (keys[a] == keys[b] && a < b)
}

/// `idx` lists every position of `keys` once, in stable key order.
pub open spec fn stable_order(keys: Seq<SortKey>, idx: Seq<usize>) -> bool {
    &&& idx.len() == keys.len()
    &&& forall|k: int| 0 <= k < idx.len() ==> #[trigger] idx[k] < keys.len()
    &&& forall|k: int, l: int|
        0 <= k < l < idx.len() ==> ordered_before(keys, #[trigger] idx[k] as int, #[trigger] idx[l] as int)
}

/// Distinct positions that cover `0..n` number at least `n`.
pub proof fn lemma_distinct_cover(idx: Seq<int>, n: int)
    requires
        0 <= n,
        forall|k: int, l: int| 0 <= k < l < idx.len() ==> #[trigger] idx[k] != #[trigger] idx[l],
        forall|j: int| 0 <= j < n ==> idx.contains(j),
    ensures
        idx.len() >= n,
{
    let f = |j: int| choose|q: int| 0 <= q < idx.len() && idx[q] == j;
    let dom = vstd::set_lib::set_int_range(0, n);
    let rng = vstd::set_lib::set_int_range(0, idx.len() as int);
    assert forall|a: int, b: int| dom.contains(a) && dom.contains(b) && #[trigger] f(a) == #[trigger] f(b) implies a == b by {
        assert(idx.contains(a));
        assert(idx.contains(b));
    }
    assert forall|q: int| dom.map(f).contains(q) implies rng.contains(q) by {
        let a = choose|a: int| dom.contains(a) && f(a) == q;
        assert(idx.contains(a));
    }
    vstd::set_lib::lemma_int_range(0, n);
    vstd::set_lib::lemma_int_range(0, idx.len() as int);
    vstd::set_lib::lemma_map_size(dom, dom.map(f), f);
    vstd::set_lib::lemma_len_subset(dom.map(f), rng);
}

/// `a` sorts strictly before `b` lexicographically, by code point.
pub open spec fn seq_lt(a: Seq<char>, b: Seq<char>) -> bool
    decreases a.len(),
{
    if a.len() == 0 {
        b.len() > 0
    } else if b.len() == 0 {
        false
    } else if a[0] != b[0] {
        a[0] < b[0]
    } else {
        seq_lt(a.drop_first(), b.drop_first())
    }
}

/// No text sorts before itself.
pub proof fn lemma_lt_irreflexive(a: Seq<char>)
    ensures
        !seq_lt(a, a),
    decreases a.len(),
{
    if a.len() > 0 {
        lemma_lt_irreflexive(a.drop_first());
    }
}

/// The lexicographic order is transitive.
pub proof fn lemma_lt_transitive(a: Seq<char>, b: Seq<char>, c: Seq<char>)
    requires
        seq_lt(a, b),
        seq_lt(b, c),
    ensures
        seq_lt(a, c),
    decreases a.len(),
{
    if a.len() > 0 && b.len() > 0 && c.len() > 0 && a[0] == b[0] && b[0] == c[0] {
        lemma_lt_transitive(a.drop_first(), b.drop_first(), c.drop_first());
    }
}

/// Of two different texts, one sorts before the other.
pub proof fn lemma_lt_total(a: Seq<char>, b: Seq<char>)
    requires
        a != b,
    ensures
        seq_lt(a, b) || seq_lt(b, a),
    decreases a.len(),
{
    if a.len() > 0 && b.len() > 0 && a[0] == b[0] {
        if a.drop_first() == b.drop_first() {
            assert(a =~= seq![a[0]] + a.drop_first());
            assert(b =~= seq![b[0]] + b.drop_first());
        }
        lemma_lt_total(a.drop_first(), b.drop_first());
    } else if a.len() == 0 && b.len() == 0 {
        assert(a =~= b);
    }
}

/// Position `a` comes before position `b` in the stable order of `texts`:
/// its text sorts first, or the texts are equal and it stands earlier.
pub open spec fn text_before(texts: Seq<Seq<char>>, a: int, b: int) -> bool {
    seq_lt(texts[a], texts[b]) || (texts[a] == texts[b] && a < b)
}

/// `idx` lists every position of `texts` once, in stable text order.
pub open spec fn text_order(texts: Seq<Seq<char>>, idx: Seq<usize>) -> bool {
    &&& idx.len() == texts.len()
    &&& forall|k: int| 0 <= k < idx.len() ==> #[trigger] idx[k] < texts.len()
    &&& forall|k: int, l: int|
        0 <= k < l < idx.len() ==> text_before(texts, #[trigger] idx[k] as int, #[trigger] idx[l] as int)
}

/// The character sequences held by a list of character vectors.
pub open spec fn views_of(t: Seq<Vec<char>>) -> Seq<Seq<char>> {
    t.map_values(|v: Vec<char>| v@)
}

/// Whether `a` sorts strictly before `b`.
fn chars_lt(a: &Vec<char>, b: &Vec<char>) -> (r: bool)
    ensures
        r == seq_lt(a@, b@),
{
    let mut i: usize = 0;
    assert(a@.subrange(0, a@.len() as int) =~= a@);
    assert(b@.subrange(0, b@.len() as int) =~= b@);
    while i < a.len() && i < b.len() && a[i] == b[i]
        invariant
            i <= a@.len(),
            i <= b@.len(),
            seq_lt(a@, b@) == seq_lt(a@.subrange(i as int, a@.len() as int), b@.subrange(i as int, b@.len() as int)),
        decreases a@.len() - i,
    {
        assert(a@.subrange(i as int, a@.len() as int).drop_first() =~= a@.subrange(i + 1, a@.len() as int));
        assert(b@.subrange(i as int, b@.len() as int).drop_first() =~= b@.subrange(i + 1, b@.len() as int));
        i = i + 1;
    }
    if i == a.len() {
        i < b.len()
    } else if i == b.len() {
        false
    } else {
        a[i] < b[i]
    }
}

/// Whether key `a` sorts strictly before key `b`.
fn less(a: SortKey, b: SortKey) -> (r: bool)
    ensures
        r == key_lt(a, b),
{
    a.0 < b.0 || (a.0 == b.0 && (a.1 < b.1 || (a.1 == b.1 && a.2 < b.2)))
}

/// The positions of `keys` in stable key order (smallest first, equal keys
/// in their original order).
pub fn order_by_keys(keys: &Vec<SortKey>) -> (r: Vec<usize>)
    ensures
        stable_order(keys@, r@),
{
    let ghost s = keys@;
    let n = keys.len();
    let mut taken: Vec<bool> = Vec::new();
    while taken.len() < n
        invariant
            taken@.len() <= n,
            forall|j: int| 0 <= j < taken@.len() ==> !taken@[j],
        decreases n - taken@.len(),
    {
        taken.push(false);
    }
    let ghost mut idx: Seq<int> = Seq::empty();
    let mut out: Vec<usize> = Vec::new();
    while out.len() < n
        invariant
            s == keys@,
            n == s.len(),
            taken@.len() == n,
            out@.len() == idx.len(),
            out@.len() <= n,
            forall|k: int| 0 <= k < idx.len() ==> out@[k] as int == idx[k],
            forall|k: int| 0 <= k < idx.len() ==> 0 <= #[trigger] idx[k] < n,
            forall|k: int, l: int| 0 <= k < l < idx.len() ==> ordered_before(s, #[trigger] idx[k], #[trigger] idx[l]),
            forall|j: int, k: int|
                0 <= j < n && !idx.contains(j) && 0 <= k < idx.len() ==> #[trigger] ordered_before(s, idx[k], j),
            forall|j: int| 0 <= j < n ==> (taken@[j] <==> idx.contains(j)),
        decreases n - out@.len(),
    {
        proof {
            assert(exists|j: int| 0 <= j < n && !idx.contains(j)) by {
                if forall|j: int| 0 <= j < n ==> idx.contains(j) {
                    assert forall|k: int, l: int| 0 <= k < l < idx.len() implies #[trigger] idx[k] != #[trigger] idx[l] by {
                        assert(ordered_before(s, idx[k], idx[l]));
                    }
                    lemma_distinct_cover(idx, n as int);
                }
            }
        }
        let ghost free = choose|j: int| 0 <= j < n && !idx.contains(j);
        let mut best: usize = 0;
        while taken[best]
            invariant
                taken@.len() == n,
                best < n,
                0 <= free < n,
                !taken@[free],
                best <= free,
                forall|m: int| 0 <= m < best ==> taken@[m],
            decreases free - best,
        {
            best = best + 1;
        }
        let mut j: usize = best + 1;
        while j < n
            invariant
                s == keys@,
                n == s.len(),
                taken@.len() == n,
                best < j <= n,
                !taken@[best as int],
                forall|m: int| 0 <= m < j && !taken@[m] && m != best ==> ordered_before(s, best as int, m),
            decreases n - j,
        {
            if !taken[j] && less(keys[j], keys[best]) {
                best = j;
            }
            j = j + 1;
        }
        proof {
            let b = best as int;
            assert(!idx.contains(b));
            let nidx = idx.push(b);
            assert forall|k: int, l: int| 0 <= k < l < nidx.len() implies ordered_before(s, #[trigger] nidx[k], #[trigger] nidx[l]) by {
                if l == idx.len() {
                    assert(nidx[k] == idx[k]);
                } else {
                    assert(nidx[k] == idx[k] && nidx[l] == idx[l]);
                }
            }
            assert forall|m: int, k: int|
                0 <= m < n && !nidx.contains(m) && 0 <= k < nidx.len() implies #[trigger] ordered_before(s, nidx[k], m) by {
                assert(m != b) by {
                    if m == b {
                        assert(nidx[idx.len() as int] == b);
                    }
                }
                assert(!idx.contains(m)) by {
                    if idx.contains(m) {
                        let q = choose|q: int| 0 <= q < idx.len() && idx[q] == m;
                        assert(nidx[q] == m);
                    }
                }
                if k < idx.len() {
                    assert(nidx[k] == idx[k]);
                }
            }
            assert forall|k: int| 0 <= k < nidx.len() implies 0 <= #[trigger] nidx[k] < n by {
                if k < idx.len() {
                    assert(nidx[k] == idx[k]);
                }
            }
            assert forall|m: int| 0 <= m < n implies (m == b || taken@[m]) == nidx.contains(m) by {
                if nidx.contains(m) && m != b {
                    let q = choose|q: int| 0 <= q < nidx.len() && nidx[q] == m;
                    assert(q < idx.len());
                    assert(idx[q] == m);
                    assert(idx.contains(m));
                }
                if m == b {
                    assert(nidx[idx.len() as int] == b);
                }
                if taken@[m] {
                    assert(idx.contains(m));
                    let q = choose|q: int| 0 <= q < idx.len() && idx[q] == m;
                    assert(nidx[q] == m);
                }
            }
            idx = nidx;
        }
        taken.set(best, true);
        out.push(best);
    }
    assert forall|k: int, l: int| 0 <= k < l < out@.len() implies ordered_before(s, #[trigger] out@[k] as int, #[trigger] out@[l] as int) by {
        assert(out@[k] as int == idx[k] && out@[l] as int == idx[l]);
        assert(ordered_before(s, idx[k], idx[l]));
    }
    assert forall|k: int| 0 <= k < out@.len() implies #[trigger] out@[k] < s.len() by {
        assert(out@[k] as int == idx[k]);
    }
    out
}

/// The positions of `texts` in stable text order (first by code point,
/// equal texts in their original order).
pub fn order_by_texts(texts: &Vec<Vec<char>>) -> (r: Vec<usize>)
    ensures
        text_order(views_of(texts@), r@),
{
    let ghost s = views_of(texts@);
    let n = texts.len();
    let mut taken: Vec<bool> = Vec::new();
    while taken.len() < n
        invariant
            taken@.len() <= n,
            forall|j: int| 0 <= j < taken@.len() ==> !taken@[j],
        decreases n - taken@.len(),
    {
        taken.push(false);
    }
    let ghost mut idx: Seq<int> = Seq::empty();
    let mut out: Vec<usize> = Vec::new();
    while out.len() < n
        invariant
            s == views_of(texts@),
            n == s.len(),
            taken@.len() == n,
            out@.len() == idx.len(),
            out@.len() <= n,
            forall|k: int| 0 <= k < idx.len() ==> out@[k] as int == idx[k],
            forall|k: int| 0 <= k < idx.len() ==> 0 <= #[trigger] idx[k] < n,
            forall|k: int, l: int| 0 <= k < l < idx.len() ==> text_before(s, #[trigger] idx[k], #[trigger] idx[l]),
            forall|j: int, k: int|
                0 <= j < n && !idx.contains(j) && 0 <= k < idx.len() ==> #[trigger] text_before(s, idx[k], j),
            forall|j: int| 0 <= j < n ==> (taken@[j] <==> idx.contains(j)),
        decreases n - out@.len(),
    {
        proof {
            assert(exists|j: int| 0 <= j < n && !idx.contains(j)) by {
                if forall|j: int| 0 <= j < n ==> idx.contains(j) {
                    assert forall|k: int, l: int| 0 <= k < l < idx.len() implies #[trigger] idx[k] != #[trigger] idx[l] by {
                        assert(text_before(s, idx[k], idx[l]));
                        lemma_lt_irreflexive(s[idx[k]]);
                    }
                    lemma_distinct_cover(idx, n as int);
                }
            }
        }
        let ghost free = choose|j: int| 0 <= j < n && !idx.contains(j);
        let mut best: usize = 0;
        while taken[best]
            invariant
                taken@.len() == n,
                best < n,
                0 <= free < n,
                !taken@[free],
                best <= free,
                forall|m: int| 0 <= m < best ==> taken@[m],
            decreases free - best,
        {
            best = best + 1;
        }
        let mut j: usize = best + 1;
        while j < n
            invariant
                s == views_of(texts@),
                n == s.len(),
                taken@.len() == n,
                best < j <= n,
                !taken@[best as int],
                forall|m: int| 0 <= m < j && !taken@[m] && m != best ==> text_before(s, best as int, m),
            decreases n - j,
        {
            let ghost old_best = best as int;
            assert(s[j as int] == texts@[j as int]@);
            assert(s[old_best] == texts@[old_best]@);
            if !taken[j] && chars_lt(&texts[j], &texts[best]) {
                best = j;
                proof {
                    assert forall|m: int| 0 <= m < j + 1 && !taken@[m] && m != best implies text_before(s, best as int, m) by {
                        lemma_lt_irreflexive(s[old_best]);
                        if m != old_best && seq_lt(s[old_best], s[m]) {
                            lemma_lt_transitive(s[best as int], s[old_best], s[m]);
                        }
                    }
                }
            } else {
                proof {
                    if !taken@[j as int] {
                        if s[old_best] != s[j as int] {
                            lemma_lt_total(s[old_best], s[j as int]);
                        }
                    }
                }
            }
            j = j + 1;
        }
        proof {
            let b = best as int;
            assert(!idx.contains(b));
            let nidx = idx.push(b);
            assert forall|k: int, l: int| 0 <= k < l < nidx.len() implies text_before(s, #[trigger] nidx[k], #[trigger] nidx[l]) by {
                if l == idx.len() {
                    assert(nidx[k] == idx[k]);
                } else {
                    assert(nidx[k] == idx[k] && nidx[l] == idx[l]);
                }
            }
            assert forall|m: int, k: int|
                0 <= m < n && !nidx.contains(m) && 0 <= k < nidx.len() implies #[trigger] text_before(s, nidx[k], m) by {
                assert(m != b) by {
                    if m == b {
                        assert(nidx[idx.len() as int] == b);
                    }
                }
                assert(!idx.contains(m)) by {
                    if idx.contains(m) {
                        let q = choose|q: int| 0 <= q < idx.len() && idx[q] == m;
                        assert(nidx[q] == m);
                    }
                }
                if k < idx.len() {
                    assert(nidx[k] == idx[k]);
                }
            }
            assert forall|k: int| 0 <= k < nidx.len() implies 0 <= #[trigger] nidx[k] < n by {
                if k < idx.len() {
                    assert(nidx[k] == idx[k]);
                }
            }
            assert forall|m: int| 0 <= m < n implies (m == b || taken@[m]) == nidx.contains(m) by {
                if nidx.contains(m) && m != b {
                    let q = choose|q: int| 0 <= q < nidx.len() && nidx[q] == m;
                    assert(q < idx.len());
                    assert(idx[q] == m);
                    assert(idx.contains(m));
                }
                if m == b {
                    assert(nidx[idx.len() as int] == b);
                }
                if taken@[m] {
                    assert(idx.contains(m));
                    let q = choose|q: int| 0 <= q < idx.len() && idx[q] == m;
                    assert(nidx[q] == m);
                }
            }
            idx = nidx;
        }
        taken.set(best, true);
        out.push(best);
    }
    assert forall|k: int, l: int| 0 <= k < l < out@.len() implies text_before(s, #[trigger] out@[k] as int, #[trigger] out@[l] as int) by {
        assert(out@[k] as int == idx[k] && out@[l] as int == idx[l]);
        assert(text_before(s, idx[k], idx[l]));
    }
    assert forall|k: int| 0 <= k < out@.len() implies #[trigger] out@[k] < s.len() by {
        assert(out@[k] as int == idx[k]);
    }
    out
}

} // verus!
