use vstd::prelude::*;

verus! {

/// The smallest index `j` in `[0, n)` with `p(j)`, or `-1` when there is none.
pub open spec fn first_index(n: int, p: spec_fn(int) -> bool) -> int {
    if exists|j: int| 0 <= j < n && #[trigger] p(j) {
        choose|j: int| 0 <= j < n && #[trigger] p(j) && forall|k: int| 0 <= k < j ==> !#[trigger] p(k)
    } else {
        -1
    }
}

/// The position of the first element of `s` satisfying `p`, or `-1`.
pub open spec fn first_match<T>(s: Seq<T>, p: spec_fn(T) -> bool) -> int {
    first_index(s.len() as int, |j: int| p(s[j]))
}

proof fn lemma_minimal_exists(n: int, p: spec_fn(int) -> bool, j: int)
    requires
        0 <= j < n,
        p(j),
    ensures
        exists|m: int| 0 <= m < n && #[trigger] p(m) && forall|k: int| 0 <= k < m ==> !#[trigger] p(k),
    decreases j,
{
    if exists|k: int| 0 <= k < j && #[trigger] p(k) {
        let k = choose|k: int| 0 <= k < j && #[trigger] p(k);
        lemma_minimal_exists(n, p, k);
    } else {
        assert(forall|k: int| 0 <= k < j ==> !#[trigger] p(k));
    }
}

/// What `first_index` is: `-1` exactly when nothing qualifies, and otherwise
/// a qualifying index before which nothing qualifies.
pub proof fn lemma_first_index(n: int, p: spec_fn(int) -> bool)
    ensures
        first_index(n, p) == -1 <==> forall|k: int| 0 <= k < n ==> !#[trigger] p(k),
        first_index(n, p) != -1 ==> {
            &&& 0 <= first_index(n, p) < n
            &&& p(first_index(n, p))
            &&& forall|k: int| 0 <= k < first_index(n, p) ==> !#[trigger] p(k)
        },
{
    if exists|j: int| 0 <= j < n && #[trigger] p(j) {
        let j = choose|j: int| 0 <= j < n && #[trigger] p(j);
        lemma_minimal_exists(n, p, j);
    }
}

/// A qualifying index with nothing qualifying before it is the first one.
pub proof fn lemma_first_index_is(n: int, p: spec_fn(int) -> bool, i: int)
    requires
        0 <= i < n,
        p(i),
        forall|k: int| 0 <= k < i ==> !#[trigger] p(k),
    ensures
        first_index(n, p) == i,
{
    lemma_first_index(n, p);
    let f = first_index(n, p);
    if f < i {
        assert(!p(f));
    } else if f > i {
        assert(!p(i));
    }
}

/// With nothing qualifying, there is no first index.
pub proof fn lemma_first_index_none(n: int, p: spec_fn(int) -> bool)
    requires
        forall|k: int| 0 <= k < n ==> !#[trigger] p(k),
    ensures
        first_index(n, p) == -1,
{
    lemma_first_index(n, p);
}

pub proof fn lemma_first_match<T>(s: Seq<T>, p: spec_fn(T) -> bool)
    ensures
        first_match(s, p) == -1 <==> forall|k: int| 0 <= k < s.len() ==> !p(#[trigger] s[k]),
        first_match(s, p) != -1 ==> {
            &&& 0 <= first_match(s, p) < s.len()
            &&& p(s[first_match(s, p)])
            &&& forall|k: int| 0 <= k < first_match(s, p) ==> !p(#[trigger] s[k])
        },
{
    let q = |j: int| p(s[j]);
    let n = s.len() as int;
    lemma_first_index(n, q);
    let f = first_index(n, q);
    if f == -1 {
        assert forall|k: int| 0 <= k < s.len() implies !p(#[trigger] s[k]) by {
            assert(!q(k));
        }
    } else {
        assert(q(f));
        assert forall|k: int| 0 <= k < f implies !p(#[trigger] s[k]) by {
            assert(!q(k));
        }
        if forall|k: int| 0 <= k < s.len() ==> !p(#[trigger] s[k]) {
            assert(!p(s[f]));
        }
    }
}

pub proof fn lemma_first_match_is<T>(s: Seq<T>, p: spec_fn(T) -> bool, i: int)
    requires
        0 <= i < s.len(),
        p(s[i]),
        forall|k: int| 0 <= k < i ==> !p(#[trigger] s[k]),
    ensures
        first_match(s, p) == i,
{
    let q = |j: int| p(s[j]);
    assert forall|k: int| 0 <= k < i implies !#[trigger] q(k) by {
        assert(!p(s[k]));
    }
    lemma_first_index_is(s.len() as int, q, i);
}

pub proof fn lemma_first_match_none<T>(s: Seq<T>, p: spec_fn(T) -> bool)
    requires
        forall|k: int| 0 <= k < s.len() ==> !p(#[trigger] s[k]),
    ensures
        first_match(s, p) == -1,
{
    let q = |j: int| p(s[j]);
    assert forall|k: int| 0 <= k < s.len() implies !#[trigger] q(k) by {
        assert(!p(s[k]));
    }
    lemma_first_index_none(s.len() as int, q);
}

/// Whether some element of `s` satisfies `p`.
pub open spec fn any_match<T>(s: Seq<T>, p: spec_fn(T) -> bool) -> bool {
    exists|k: int| 0 <= k < s.len() && p(#[trigger] s[k])
}

pub proof fn lemma_any_match_first<T>(s: Seq<T>, p: spec_fn(T) -> bool)
    ensures
        any_match(s, p) <==> first_match(s, p) != -1,
{
    lemma_first_match(s, p);
}

pub proof fn lemma_any_match_push<T>(s: Seq<T>, x: T, p: spec_fn(T) -> bool)
    ensures
        any_match(s.push(x), p) == (any_match(s, p) || p(x)),
{
    if any_match(s, p) {
        let k = choose|k: int| 0 <= k < s.len() && p(#[trigger] s[k]);
        assert(s.push(x)[k] == s[k]);
    }
    if p(x) {
        assert(s.push(x)[s.len() as int] == x);
    }
    if any_match(s.push(x), p) {
        let k = choose|k: int| 0 <= k < s.push(x).len() && p(#[trigger] s.push(x)[k]);
        if k < s.len() {
            assert(s[k] == s.push(x)[k]);
        }
    }
}

/// Mapping a sequence with one more element gives one more mapped element.
pub proof fn lemma_map_values_push<A, B>(s: Seq<A>, x: A, f: spec_fn(A) -> B)
    ensures
        s.push(x).map_values(f) == s.map_values(f).push(f(x)),
{
    assert(s.push(x).map_values(f) =~= s.map_values(f).push(f(x)));
}

/// A prefix one longer is the shorter prefix with the next element pushed.
pub proof fn lemma_take_push<A>(s: Seq<A>, i: int)
    requires
        0 <= i < s.len(),
    ensures
        s.take(i + 1) == s.take(i).push(s[i]),
{
    assert(s.take(i + 1) =~= s.take(i).push(s[i]));
}

/// What a sequence with one more element contains.
pub proof fn lemma_contains_push<A>(s: Seq<A>, x: A, y: A)
    ensures
        s.push(x).contains(y) == (s.contains(y) || x == y),
{
    if s.contains(y) {
        let k = choose|k: int| 0 <= k < s.len() && s[k] == y;
        assert(s.push(x)[k] == y);
    }
    if x == y {
        assert(s.push(x)[s.len() as int] == y);
    }
    if s.push(x).contains(y) {
        let k = choose|k: int| 0 <= k < s.push(x).len() && s.push(x)[k] == y;
        if k < s.len() {
            assert(s[k] == y);
        }
    }
}

/// `s` with the element at `from` taken out and put back at `to`.
pub open spec fn moved<T>(s: Seq<T>, from: int, to: int) -> Seq<T> {
    s.remove(from).insert(to, s[from])
}

/// Filtering by two predicates that agree on every element gives the same result.
pub proof fn lemma_filter_agree<A>(s: Seq<A>, p: spec_fn(A) -> bool, q: spec_fn(A) -> bool)
    requires
        forall|i: int| 0 <= i < s.len() ==> p(#[trigger] s[i]) == q(s[i]),
    ensures
        s.filter(p) == s.filter(q),
    decreases s.len(),
{
    if s.len() > 0 {
        let dl = s.drop_last();
        assert forall|i: int| 0 <= i < dl.len() implies p(#[trigger] dl[i]) == q(dl[i]) by {
            assert(dl[i] == s[i]);
        }
        lemma_filter_agree(dl, p, q);
        assert(p(s[s.len() - 1]) == q(s[s.len() - 1]));
        assert(s =~= dl.push(s.last()));
        dl.lemma_filter_push(s.last(), p);
        dl.lemma_filter_push(s.last(), q);
    }
}

} // verus!
