//! Interleaving of two sequences and taking a bounded prefix.
use vstd::prelude::*;

verus! {

/// The elements of `a` and `b` taken alternately, starting with `a`; once one
/// side is exhausted the rest of the other follows in order.
pub open spec fn interleave<T>(a: Seq<T>, b: Seq<T>) -> Seq<T>
    decreases a.len() + b.len(),
{
    if a.len() == 0 {
        b
    } else {
        seq![a[0]] + interleave(b, a.drop_first())
    }
}

/// The first `n` elements of `s`, or all of `s` when it is shorter.
pub open spec fn prefix<T>(s: Seq<T>, n: int) -> Seq<T> {
    if n < s.len() {
        s.take(n)
    } else {
        s
    }
}

proof fn lemma_interleave_empty_right<T>(a: Seq<T>)
    ensures
        interleave(a, Seq::<T>::empty()) == a,
{
    if a.len() > 0 {
        assert(interleave(Seq::<T>::empty(), a.drop_first()) == a.drop_first());
        assert(seq![a[0]] + a.drop_first() =~= a);
    }
}

proof fn lemma_interleave_pair<T>(a: Seq<T>, b: Seq<T>)
    requires
        a.len() > 0,
        b.len() > 0,
    ensures
        interleave(a, b) == seq![a[0], b[0]] + interleave(a.drop_first(), b.drop_first()),
{
    assert(interleave(b, a.drop_first()) == seq![b[0]] + interleave(
        a.drop_first(),
        b.drop_first(),
    ));
    assert(seq![a[0]] + (seq![b[0]] + interleave(a.drop_first(), b.drop_first())) =~= seq![
        a[0],
        b[0],
    ] + interleave(a.drop_first(), b.drop_first()));
}

/// The elements of `a` prepended to `s` are `a` and those of `s`.
pub proof fn lemma_cons_contains<T>(a: T, s: Seq<T>, x: T)
    ensures
        (seq![a] + s).contains(x) <==> (x == a || s.contains(x)),
{
    let w = seq![a] + s;
    if w.contains(x) && x != a {
        let k = choose|k: int| 0 <= k < w.len() && w[k] == x;
        assert(s[k - 1] == x);
    }
    if s.contains(x) {
        let m = choose|m: int| 0 <= m < s.len() && s[m] == x;
        assert(w[m + 1] == x);
    }
    if x == a {
        assert(w[0] == x);
    }
}

/// Every element of an interleaving comes from one of its two sides, and
/// every element of either side occurs in it.
pub proof fn lemma_interleave_contains<T>(a: Seq<T>, b: Seq<T>)
    ensures
        interleave(a, b).len() == a.len() + b.len(),
        forall|x: T| interleave(a, b).contains(x) <==> (a.contains(x) || b.contains(x)),
    decreases a.len() + b.len(),
{
    if a.len() > 0 {
        let rest = a.drop_first();
        lemma_interleave_contains(b, rest);
        let s = interleave(a, b);
        let t = interleave(b, rest);
        assert(s == seq![a[0]] + t);
        assert(s.len() == t.len() + 1);
        assert forall|x: T| s.contains(x) <==> (a.contains(x) || b.contains(x)) by {
            if s.contains(x) {
                let k = choose|k: int| 0 <= k < s.len() && s[k] == x;
                if k > 0 {
                    assert(t[k - 1] == x);
                    assert(t.contains(x));
                    if rest.contains(x) {
                        let j = choose|j: int| 0 <= j < rest.len() && rest[j] == x;
                        assert(a[j + 1] == x);
                    }
                } else {
                    assert(a[0] == x);
                }
            }
            if a.contains(x) {
                let j = choose|j: int| 0 <= j < a.len() && a[j] == x;
                if j == 0 {
                    assert(s[0] == x);
                } else {
                    assert(rest[j - 1] == x);
                    assert(rest.contains(x));
                    assert(t.contains(x));
                    let k = choose|k: int| 0 <= k < t.len() && t[k] == x;
                    assert(s[k + 1] == x);
                }
            }
            if b.contains(x) {
                assert(t.contains(x));
                let k = choose|k: int| 0 <= k < t.len() && t[k] == x;
                assert(s[k + 1] == x);
            }
        }
    }
}

/// Every element of a prefix is an element of the whole sequence.
pub proof fn lemma_prefix_contains<T>(s: Seq<T>, n: int, x: T)
    requires
        0 <= n,
        prefix(s, n).contains(x),
    ensures
        s.contains(x),
{
    if n < s.len() {
        let k = choose|k: int| 0 <= k < prefix(s, n).len() && prefix(s, n)[k] == x;
        assert(s[k] == x);
    }
}

/// The first `max` elements of the interleaving of `a` and `b`.
pub fn interleave_prefix<T: Copy>(a: &Vec<T>, b: &Vec<T>, max: usize) -> (r: Vec<T>)
    ensures
        r@ == prefix(interleave(a@, b@), max as int),
        r@.len() <= max,
{
    let mut all: Vec<T> = Vec::new();
    let mut i: usize = 0;
    assert(a@.skip(0) =~= a@);
    assert(b@.skip(0) =~= b@);
    assert(all@ + interleave(a@, b@) =~= interleave(a@, b@));
    while i < a.len() && i < b.len()
        invariant
            i <= a@.len(),
            i <= b@.len(),
            all@ + interleave(a@.skip(i as int), b@.skip(i as int)) == interleave(a@, b@),
        decreases a@.len() - i,
    {
        proof {
            lemma_interleave_pair(a@.skip(i as int), b@.skip(i as int));
            assert(a@.skip(i as int).drop_first() =~= a@.skip(i as int + 1));
            assert(b@.skip(i as int).drop_first() =~= b@.skip(i as int + 1));
            assert(all@.push(a@[i as int]).push(b@[i as int]) + interleave(
                a@.skip(i as int + 1),
                b@.skip(i as int + 1),
            ) =~= all@ + (seq![a@[i as int], b@[i as int]] + interleave(
                a@.skip(i as int + 1),
                b@.skip(i as int + 1),
            )));
        }
        all.push(a[i]);
        all.push(b[i]);
        i = i + 1;
    }
    proof {
        if i == a@.len() {
            assert(a@.skip(i as int) =~= Seq::<T>::empty());
        } else {
            assert(b@.skip(i as int) =~= Seq::<T>::empty());
            lemma_interleave_empty_right(a@.skip(i as int));
        }
    }
    let ghost head = all@;
    let ghost tail = if i == a@.len() { b@.skip(i as int) } else { a@.skip(i as int) };
    let rest: &Vec<T> = if i == a.len() { b } else { a };
    let mut j: usize = i;
    while j < rest.len()
        invariant
            i <= j <= rest@.len(),
            tail == rest@.skip(i as int),
            head + tail == interleave(a@, b@),
            all@ == head + rest@.subrange(i as int, j as int),
        decreases rest@.len() - j,
    {
        proof {
            assert(rest@.subrange(i as int, j as int).push(rest@[j as int]) =~= rest@.subrange(
                i as int,
                j as int + 1,
            ));
        }
        all.push(rest[j]);
        j = j + 1;
    }
    assert(rest@.subrange(i as int, j as int) =~= tail);
    let ghost whole = all@;
    let mut r: Vec<T> = Vec::new();
    let mut k: usize = 0;
    while k < all.len() && k < max
        invariant
            all@ == whole,
            k <= all@.len(),
            k <= max,
            r@ == whole.take(k as int),
        decreases all@.len() - k,
    {
        proof {
            assert(whole.take(k as int).push(whole[k as int]) =~= whole.take(k as int + 1));
        }
        r.push(all[k]);
        k = k + 1;
    }
    proof {
        if k == all@.len() {
            assert(whole.take(k as int) =~= whole);
        }
    }
    r
}

} // verus!
