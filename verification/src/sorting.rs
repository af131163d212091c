use vstd::prelude::*;

verus! {

broadcast use {vstd::seq_lib::group_seq_properties, vstd::seq_lib::group_filter_ensures};

/// A key by which items are put in order: a strict order that is
/// transitive and total up to equivalence.
pub trait SortKey: Sized {
    spec fn key_lt(self, other: Self) -> bool;

    proof fn lemma_lt_irreflexive(a: Self)
        ensures
            !a.key_lt(a),
    ;

    proof fn lemma_lt_transitive(a: Self, b: Self, c: Self)
        requires
            a.key_lt(b),
            b.key_lt(c),
        ensures
            a.key_lt(c),
    ;

    proof fn lemma_lt_asymmetric(a: Self, b: Self)
        requires
            a.key_lt(b),
        ensures
            !b.key_lt(a),
    ;

    /// Equivalence (neither is below the other) is transitive.
    proof fn lemma_equiv_transitive(a: Self, b: Self, c: Self)
        requires
            !a.key_lt(b) && !b.key_lt(a),
            !b.key_lt(c) && !c.key_lt(b),
        ensures
            !a.key_lt(c) && !c.key_lt(a),
    ;

    /// Not below is below or equivalent: `!(b < a)` and `!(c < b)` give `!(c < a)`.
    proof fn lemma_not_lt_transitive(a: Self, b: Self, c: Self)
        requires
            !b.key_lt(a),
            !c.key_lt(b),
        ensures
            !c.key_lt(a),
    ;

    fn less(&self, other: &Self) -> (r: bool)
        ensures
            r == self.key_lt(*other),
    ;
}

/// Neither key is below the other.
pub open spec fn key_equiv<K: SortKey>(a: K, b: K) -> bool {
    !a.key_lt(b) && !b.key_lt(a)
}

/// No later item has a key below an earlier one.
pub open spec fn sorted_by_key<K: SortKey, T>(s: Seq<(K, T)>) -> bool {
    forall|i: int, j: int| 0 <= i < j < s.len() ==> !(#[trigger] s[j]).0.key_lt((#[trigger] s[i]).0)
}

/// The items whose key is equivalent to `k`, in their order in `s`.
pub open spec fn key_class<K: SortKey, T>(s: Seq<(K, T)>, k: K) -> Seq<(K, T)> {
    s.filter(|p: (K, T)| key_equiv(p.0, k))
}

proof fn lemma_filter_none<A>(s: Seq<A>, pred: spec_fn(A) -> bool)
    requires
        forall|i: int| 0 <= i < s.len() ==> !pred(#[trigger] s[i]),
    ensures
        s.filter(pred) == Seq::<A>::empty(),
    decreases s.len(),
{
    reveal(Seq::filter);
    if s.len() > 0 {
        lemma_filter_none(s.drop_last(), pred);
    }
}

proof fn lemma_insert_split<A>(s: Seq<A>, p: int, x: A)
    requires
        0 <= p <= s.len(),
    ensures
        s.insert(p, x) == s.subrange(0, p) + seq![x] + s.subrange(p, s.len() as int),
        s == s.subrange(0, p) + s.subrange(p, s.len() as int),
{
    assert(s.insert(p, x) =~= s.subrange(0, p) + seq![x] + s.subrange(p, s.len() as int));
    assert(s =~= s.subrange(0, p) + s.subrange(p, s.len() as int));
}

proof fn lemma_insert_multiset<A>(s: Seq<A>, p: int, x: A)
    requires
        0 <= p <= s.len(),
    ensures
        s.insert(p, x).to_multiset() == s.to_multiset().insert(x),
{
    broadcast use Seq::to_multiset_ensures;
    broadcast use vstd::multiset::group_multiset_axioms;

    let t = s.insert(p, x);
    assert(t.remove(p) =~= s);
    assert(t[p] == x);
    assert(t.contains(x));
    assert(t.to_multiset().remove(x) == s.to_multiset());
    assert(t.to_multiset() =~= s.to_multiset().insert(x));
}


/// Filtering, then mapping, is mapping, then filtering with the matching test.
pub proof fn lemma_filter_map_values<A, B>(
    s: Seq<A>,
    p: spec_fn(A) -> bool,
    q: spec_fn(B) -> bool,
    f: spec_fn(A) -> B,
)
    requires
        forall|i: int| 0 <= i < s.len() ==> p(#[trigger] s[i]) == q(f(s[i])),
    ensures
        s.filter(p).map_values(f) == s.map_values(f).filter(q),
    decreases s.len(),
{
    reveal(Seq::filter);
    if s.len() > 0 {
        lemma_filter_map_values(s.drop_last(), p, q, f);
        assert(s.map_values(f).drop_last() =~= s.drop_last().map_values(f));
        if p(s.last()) {
            assert(s.filter(p).map_values(f) =~= s.drop_last().filter(p).map_values(f).push(f(s.last())));
        } else {
            assert(s.filter(p).map_values(f) =~= s.drop_last().filter(p).map_values(f));
        }
    } else {
        assert(s.filter(p).map_values(f) =~= s.map_values(f).filter(q));
    }
}

/// A filter that keeps nothing gives the empty sequence.
pub proof fn lemma_filter_empty<A>(s: Seq<A>, pred: spec_fn(A) -> bool)
    requires
        forall|i: int| 0 <= i < s.len() ==> !pred(#[trigger] s[i]),
    ensures
        s.filter(pred) == Seq::<A>::empty(),
{
    lemma_filter_none(s, pred);
}

/// Puts the pairs in order of their keys, keeping the order of pairs whose
/// keys are equivalent (a stable sort).
pub fn stable_sort_by_key<K: SortKey, T>(pairs: Vec<(K, T)>) -> (out: Vec<(K, T)>)
    ensures
        out@.len() == pairs@.len(),
        out@.to_multiset() == pairs@.to_multiset(),
        sorted_by_key(out@),
        forall|k: K| #[trigger] key_class(out@, k) == key_class(pairs@, k),
{
    broadcast use Seq::to_multiset_ensures;
    broadcast use vstd::multiset::group_multiset_axioms;

    let ghost input = pairs@;
    let mut rest = pairs;
    let mut out: Vec<(K, T)> = Vec::new();
    while rest.len() > 0
        invariant
            rest@ == input.subrange(0, rest@.len() as int),
            rest@.len() + out@.len() == input.len(),
            sorted_by_key(out@),
            out@.to_multiset() == input.subrange(rest@.len() as int, input.len() as int).to_multiset(),
            forall|k: K| #[trigger] key_class(out@, k) == key_class(input.subrange(rest@.len() as int, input.len() as int), k),
        decreases rest@.len(),
    {
        let ghost r = rest@.len() as int;
        let ghost old_out = out@;
        let x = rest.pop().unwrap();
        assert(x == input[r - 1]);
        let mut p: usize = 0;
        while p < out.len() && out[p].0.less(&x.0)
            invariant
                p <= out@.len(),
                forall|q: int| 0 <= q < p ==> (#[trigger] out@[q]).0.key_lt(x.0),
            decreases out@.len() - p,
        {
            p = p + 1;
        }
        proof {
            // every pair from p on is not below x
            assert forall|q: int| p <= q < old_out.len() implies !(#[trigger] old_out[q]).0.key_lt(x.0) by {
                if q > p {
                    assert(!old_out[q].0.key_lt(old_out[p as int].0));
                    K::lemma_not_lt_transitive(x.0, old_out[p as int].0, old_out[q].0);
                }
            }
        }
        out.insert(p, x);
        proof {
            let ghost new_out = out@;
            let ghost tail = input.subrange(r - 1, input.len() as int);
            let ghost tail_old = input.subrange(r, input.len() as int);
            assert(tail =~= seq![x] + tail_old);
            lemma_insert_split(old_out, p as int, x);
            let ghost left = old_out.subrange(0, p as int);
            let ghost right = old_out.subrange(p as int, old_out.len() as int);
            // order
            assert forall|i: int, j: int| 0 <= i < j < new_out.len() implies !(#[trigger] new_out[j]).0.key_lt((#[trigger] new_out[i]).0) by {
                if j < p {
                } else if j == p {
                    K::lemma_lt_asymmetric(new_out[i].0, x.0);
                } else if i == p {
                    assert(new_out[j] == old_out[j - 1]);
                } else if i < p {
                    assert(new_out[j] == old_out[j - 1]);
                    assert(new_out[i] == old_out[i]);
                    assert(!old_out[j - 1].0.key_lt(x.0));
                    if old_out[j - 1].0.key_lt(old_out[i].0) {
                        K::lemma_lt_transitive(old_out[j - 1].0, old_out[i].0, x.0);
                    }
                } else {
                    assert(new_out[j] == old_out[j - 1]);
                    assert(new_out[i] == old_out[i - 1]);
                }
            }
            // multiset
            lemma_insert_multiset(old_out, p as int, x);
            assert(tail.to_multiset() == tail_old.to_multiset().insert(x)) by {
                vstd::seq_lib::lemma_multiset_commutative(seq![x], tail_old);
                assert(seq![x] =~= Seq::<(K, T)>::empty().push(x));
            }
            // classes
            assert forall|k: K| #[trigger] key_class(new_out, k) == key_class(tail, k) by {
                let pred = |pp: (K, T)| key_equiv(pp.0, k);
                Seq::filter_distributes_over_add(left + seq![x], right, pred);
                Seq::filter_distributes_over_add(left, seq![x], pred);
                Seq::filter_distributes_over_add(left, right, pred);
                tail_old.lemma_filter_prepend(x, pred);
                assert(key_class(old_out, k) == key_class(tail_old, k));
                if key_equiv(x.0, k) {
                    assert forall|i: int| 0 <= i < left.len() implies !pred(#[trigger] left[i]) by {
                        assert(left[i] == old_out[i]);
                        if key_equiv(left[i].0, k) {
                            K::lemma_equiv_transitive(left[i].0, k, x.0);
                            K::lemma_lt_irreflexive(x.0);
                        }
                    }
                    lemma_filter_none(left, pred);
                    reveal_with_fuel(Seq::filter, 2);
                    assert(seq![x].filter(pred) =~= seq![x]);
                    assert(key_class(new_out, k) =~= seq![x] + right.filter(pred));
                    assert(key_class(old_out, k) =~= right.filter(pred));
                } else {
                    reveal_with_fuel(Seq::filter, 2);
                    assert(seq![x].filter(pred) =~= Seq::<(K, T)>::empty());
                    assert(key_class(new_out, k) =~= left.filter(pred) + right.filter(pred));
                }
            }
        }
    }
    assert(input.subrange(0, input.len() as int) =~= input);
    out
}

/// Keys compared as numbers.
impl SortKey for u32 {
    open spec fn key_lt(self, other: Self) -> bool {
        self < other
    }

    proof fn lemma_lt_irreflexive(a: Self) {
    }

    proof fn lemma_lt_transitive(a: Self, b: Self, c: Self) {
    }

    proof fn lemma_lt_asymmetric(a: Self, b: Self) {
    }

    proof fn lemma_equiv_transitive(a: Self, b: Self, c: Self) {
    }

    proof fn lemma_not_lt_transitive(a: Self, b: Self, c: Self) {
    }

    fn less(&self, other: &Self) -> (r: bool) {
        *self < *other
    }
}


/// Strict lexicographic order on character sequences, characters compared
/// by their code points (the order of `str`'s `Ord`, which compares the
/// UTF-8 bytes).
pub open spec fn lex_lt(a: Seq<char>, b: Seq<char>) -> bool
    decreases a.len(),
{
    if a.len() == 0 {
        b.len() > 0
    } else if b.len() == 0 {
        false
    } else if a[0] != b[0] {
        (a[0] as int) < (b[0] as int)
    } else {
        lex_lt(a.drop_first(), b.drop_first())
    }
}

proof fn lemma_lex_irreflexive(a: Seq<char>)
    ensures
        !lex_lt(a, a),
    decreases a.len(),
{
    if a.len() > 0 {
        lemma_lex_irreflexive(a.drop_first());
    }
}

proof fn lemma_lex_transitive(a: Seq<char>, b: Seq<char>, c: Seq<char>)
    requires
        lex_lt(a, b),
        lex_lt(b, c),
    ensures
        lex_lt(a, c),
    decreases a.len(),
{
    if a.len() > 0 && b.len() > 0 && c.len() > 0 {
        if a[0] == b[0] && b[0] == c[0] {
            lemma_lex_transitive(a.drop_first(), b.drop_first(), c.drop_first());
        }
    }
}

/// Two sequences are below one another, or equal.
proof fn lemma_lex_total(a: Seq<char>, b: Seq<char>)
    ensures
        lex_lt(a, b) || lex_lt(b, a) || a == b,
    decreases a.len(),
{
    if a.len() > 0 && b.len() > 0 {
        if a[0] == b[0] {
            lemma_lex_total(a.drop_first(), b.drop_first());
            if a.drop_first() == b.drop_first() {
                assert(a =~= seq![a[0]] + a.drop_first());
                assert(b =~= seq![b[0]] + b.drop_first());
            }
        } else {
            if (a[0] as int) == (b[0] as int) {
                assert(a[0] == b[0]);
            }
        }
    } else if a.len() == 0 && b.len() == 0 {
        assert(a =~= b);
    }
}

proof fn lemma_lex_asymmetric(a: Seq<char>, b: Seq<char>)
    requires
        lex_lt(a, b),
    ensures
        !lex_lt(b, a),
{
    if lex_lt(b, a) {
        lemma_lex_transitive(a, b, a);
        lemma_lex_irreflexive(a);
    }
}

/// Two keys of characters are equivalent exactly when they are equal.
pub proof fn lemma_chars_equiv(a: Vec<char>, b: Vec<char>)
    ensures
        key_equiv(a, b) <==> a@ == b@,
{
    lemma_lex_total(a@, b@);
    lemma_lex_irreflexive(a@);
}

/// Keys of characters, compared lexicographically.
impl SortKey for Vec<char> {
    open spec fn key_lt(self, other: Self) -> bool {
        lex_lt(self@, other@)
    }

    proof fn lemma_lt_irreflexive(a: Self) {
        lemma_lex_irreflexive(a@);
    }

    proof fn lemma_lt_transitive(a: Self, b: Self, c: Self) {
        lemma_lex_transitive(a@, b@, c@);
    }

    proof fn lemma_lt_asymmetric(a: Self, b: Self) {
        lemma_lex_asymmetric(a@, b@);
    }

    proof fn lemma_equiv_transitive(a: Self, b: Self, c: Self) {
        lemma_lex_total(a@, b@);
        lemma_lex_total(b@, c@);
        lemma_lex_irreflexive(a@);
    }

    proof fn lemma_not_lt_transitive(a: Self, b: Self, c: Self) {
        lemma_lex_total(a@, b@);
        lemma_lex_total(b@, c@);
        if lex_lt(c@, a@) {
            if lex_lt(a@, b@) {
                lemma_lex_transitive(c@, a@, b@);
                lemma_lex_asymmetric(c@, b@);
            }
        }
    }

    fn less(&self, other: &Self) -> (r: bool) {
        let mut i: usize = 0;
        while i < self.len() && i < other.len() && self[i] == other[i]
            invariant
                i <= self@.len(),
                i <= other@.len(),
                lex_lt(self@, other@) == lex_lt(self@.skip(i as int), other@.skip(i as int)),
            decreases self@.len() - i,
        {
            assert(self@.skip(i as int).drop_first() =~= self@.skip(i + 1));
            assert(other@.skip(i as int).drop_first() =~= other@.skip(i + 1));
            i = i + 1;
        }
        if i == self.len() {
            i < other.len()
        } else if i == other.len() {
            false
        } else {
            self[i] < other[i]
        }
    }
}

} // verus!
