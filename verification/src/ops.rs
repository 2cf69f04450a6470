//! Caller-supplied scalar arithmetic.
//!
//! The engine never computes on scalars itself: every arithmetic step calls a
//! closure handed in by the caller, and the contracts describe results through
//! the closures' own postconditions (`call_ensures`). This keeps the verified
//! code independent of the concrete number type while pinning down exactly
//! which operation was applied to which operands, in which order.

use vstd::prelude::*;

verus! {

/// The precondition of a binary scalar operation holds on all operand pairs.
pub open spec fn bin_ok<T, F: Fn(T, T) -> T>(f: F) -> bool {
    forall|a: T, b: T| #[trigger] call_requires(f, (a, b))
}

/// `r` is a result the binary operation `f` may return on `(a, b)`.
pub open spec fn bin_post<T, F: Fn(T, T) -> T>(f: F, a: T, b: T, r: T) -> bool {
    call_ensures(f, (a, b), r)
}

/// The precondition of a unary operation holds on every operand.
pub open spec fn un_ok<A, B, F: Fn(A) -> B>(f: F) -> bool {
    forall|x: A| #[trigger] call_requires(f, (x,))
}

/// `r` is a result the unary operation `f` may return on `x`.
pub open spec fn un_post<A, B, F: Fn(A) -> B>(f: F, x: A, r: B) -> bool {
    call_ensures(f, (x,), r)
}

/// `trace` records the accumulator states of a left-to-right fold of `f` over
/// `s`: it starts at `init`, and each step absorbs the next element of `s`.
pub open spec fn fold_steps<T, F: Fn(T, T) -> T>(f: F, init: T, s: Seq<T>, trace: Seq<T>) -> bool {
    &&& trace.len() == s.len() + 1
    &&& trace[0] == init
    &&& forall|i: int| 0 <= i < s.len() ==> bin_post(f, trace[i], s[i], #[trigger] trace[i + 1])
}

/// `r` is a left-to-right fold of `f` over `s` starting from `init`:
/// the accumulator starts at `init` and absorbs the elements of `s` in order.
pub open spec fn fold_rel<T, F: Fn(T, T) -> T>(f: F, init: T, s: Seq<T>, r: T) -> bool {
    exists|trace: Seq<T>| #[trigger] fold_steps(f, init, s, trace) && trace.last() == r
}

/// The fold of the empty sequence is its starting value.
pub proof fn lemma_fold_rel_nil<T, F: Fn(T, T) -> T>(f: F, init: T)
    ensures
        fold_rel(f, init, Seq::empty(), init),
{
    let trace = seq![init];
    assert(fold_steps(f, init, Seq::<T>::empty(), trace));
    assert(trace.last() == init);
}

/// The caller's scalar arithmetic, bundled: the constants zero and one, the
/// four elementwise operations, the conversion from a batch count to a
/// scalar, and the activation function.
#[derive(Clone, Copy)]
pub struct Arith<T, FAdd, FSub, FMul, FDiv, FCnt, FAct> {
    pub zero: T,
    pub one: T,
    pub add: FAdd,
    pub sub: FSub,
    pub mul: FMul,
    pub divide: FDiv,
    pub count: FCnt,
    pub act: FAct,
}

/// Every operation in the bundle is callable on all operands.
pub open spec fn arith_ok<
    T,
    FAdd: Fn(T, T) -> T,
    FSub: Fn(T, T) -> T,
    FMul: Fn(T, T) -> T,
    FDiv: Fn(T, T) -> T,
    FCnt: Fn(usize) -> T,
    FAct: Fn(T) -> T,
>(o: Arith<T, FAdd, FSub, FMul, FDiv, FCnt, FAct>) -> bool {
    &&& bin_ok(o.add)
    &&& bin_ok(o.sub)
    &&& bin_ok(o.mul)
    &&& bin_ok(o.divide)
    &&& un_ok(o.count)
    &&& un_ok(o.act)
}

/// The binary operation is deterministic: any two results on the same
/// operands coincide.
pub open spec fn bin_det<T, F: Fn(T, T) -> T>(f: F) -> bool {
    forall|a: T, b: T, r1: T, r2: T|
        #[trigger] call_ensures(f, (a, b), r1) && #[trigger] call_ensures(f, (a, b), r2) ==> r1
            == r2
}

/// The unary operation is deterministic: any two results on the same operand
/// coincide.
pub open spec fn un_det<A, B, F: Fn(A) -> B>(f: F) -> bool {
    forall|x: A, r1: B, r2: B|
        #[trigger] call_ensures(f, (x,), r1) && #[trigger] call_ensures(f, (x,), r2) ==> r1 == r2
}

/// Two fold traces of a deterministic operation over the same sequence agree
/// at every position.
proof fn lemma_fold_trace_eq<T, F: Fn(T, T) -> T>(
    f: F,
    init: T,
    s: Seq<T>,
    t1: Seq<T>,
    t2: Seq<T>,
    i: int,
)
    requires
        fold_steps(f, init, s, t1),
        fold_steps(f, init, s, t2),
        bin_det(f),
        0 <= i < t1.len(),
    ensures
        t1[i] == t2[i],
    decreases i,
{
    if i > 0 {
        lemma_fold_trace_eq(f, init, s, t1, t2, i - 1);
        assert(bin_post(f, t1[i - 1], s[i - 1], t1[(i - 1) + 1]));
        assert(bin_post(f, t2[i - 1], s[i - 1], t2[(i - 1) + 1]));
    }
}

/// A deterministic operation folds a sequence to a unique result.
pub proof fn lemma_fold_rel_det<T, F: Fn(T, T) -> T>(f: F, init: T, s: Seq<T>, r1: T, r2: T)
    requires
        fold_rel(f, init, s, r1),
        fold_rel(f, init, s, r2),
        bin_det(f),
    ensures
        r1 == r2,
{
    let t1 = choose|t: Seq<T>| fold_steps(f, init, s, t) && t.last() == r1;
    let t2 = choose|t: Seq<T>| fold_steps(f, init, s, t) && t.last() == r2;
    lemma_fold_trace_eq(f, init, s, t1, t2, s.len() as int);
}

/// A fold of all-`init` elements by an operation that carries `init` to
/// `init` stays at `init`.
pub proof fn lemma_fold_rel_absorbed<T, F: Fn(T, T) -> T>(f: F, init: T, s: Seq<T>, r: T)
    requires
        fold_rel(f, init, s, r),
        forall|i: int| 0 <= i < s.len() ==> s[i] == init,
        forall|r2: T| bin_post(f, init, init, r2) ==> r2 == init,
    ensures
        r == init,
{
    let t = choose|t: Seq<T>| fold_steps(f, init, s, t) && t.last() == r;
    assert forall|i: int| 0 <= i < t.len() implies t[i] == init by {
        lemma_fold_trace_absorbed(f, init, s, t, i);
    }
    assert(t.last() == t[t.len() - 1]);
}

proof fn lemma_fold_trace_absorbed<T, F: Fn(T, T) -> T>(f: F, init: T, s: Seq<T>, t: Seq<T>, i: int)
    requires
        fold_steps(f, init, s, t),
        forall|j: int| 0 <= j < s.len() ==> s[j] == init,
        forall|r2: T| bin_post(f, init, init, r2) ==> r2 == init,
        0 <= i < t.len(),
    ensures
        t[i] == init,
    decreases i,
{
    if i > 0 {
        lemma_fold_trace_absorbed(f, init, s, t, i - 1);
        assert(bin_post(f, t[i - 1], s[i - 1], t[(i - 1) + 1]));
    }
}

/// Every result of `f` is the one `g` gives: `g` is the mathematical
/// function the operation computes.
pub open spec fn bin_covered<T, F: Fn(T, T) -> T>(f: F, g: spec_fn(T, T) -> T) -> bool {
    forall|a: T, b: T, r: T| #[trigger] call_ensures(f, (a, b), r) ==> r == g(a, b)
}

pub open spec fn fn2_commutative<T>(g: spec_fn(T, T) -> T) -> bool {
    forall|a: T, b: T| #[trigger] g(a, b) == g(b, a)
}

pub open spec fn fn2_associative<T>(g: spec_fn(T, T) -> T) -> bool {
    forall|a: T, b: T, c: T| #[trigger] g(g(a, b), c) == g(a, g(b, c))
}

proof fn lemma_fold_trace_is_fold_left<T, F: Fn(T, T) -> T>(
    f: F,
    g: spec_fn(T, T) -> T,
    init: T,
    s: Seq<T>,
    trace: Seq<T>,
    i: int,
)
    requires
        fold_steps(f, init, s, trace),
        bin_covered(f, g),
        0 <= i <= s.len(),
    ensures
        trace[i] == s.take(i).fold_left(init, g),
    decreases i,
{
    if i == 0 {
        assert(s.take(0) =~= Seq::<T>::empty());
        assert(Seq::<T>::empty().fold_left(init, g) == init);
    } else {
        lemma_fold_trace_is_fold_left(f, g, init, s, trace, i - 1);
        assert(bin_post(f, trace[i - 1], s[i - 1], trace[(i - 1) + 1]));
        assert(s.take(i).drop_last() =~= s.take(i - 1));
        assert(s.take(i).last() == s[i - 1]);
        assert(s.take(i).fold_left(init, g) == g(s.take(i - 1).fold_left(init, g), s[i - 1]));
    }
}

/// When `g` is the function the operation computes, a relational fold is the
/// mathematical left fold by `g`.
pub proof fn lemma_fold_rel_is_fold_left<T, F: Fn(T, T) -> T>(
    f: F,
    g: spec_fn(T, T) -> T,
    init: T,
    s: Seq<T>,
    r: T,
)
    requires
        fold_rel(f, init, s, r),
        bin_covered(f, g),
    ensures
        r == s.fold_left(init, g),
{
    let trace = choose|trace: Seq<T>| fold_steps(f, init, s, trace) && trace.last() == r;
    lemma_fold_trace_is_fold_left(f, g, init, s, trace, s.len() as int);
    assert(s.take(s.len() as int) =~= s);
    assert(trace.last() == trace[s.len() as int]);
}

/// Any element can be pulled out of a commutative, associative left fold.
proof fn lemma_fold_left_pull<T>(s: Seq<T>, z: T, g: spec_fn(T, T) -> T, i: int)
    requires
        fn2_commutative(g),
        fn2_associative(g),
        0 <= i < s.len(),
    ensures
        s.fold_left(z, g) == g(s.remove(i).fold_left(z, g), s[i]),
    decreases s.len(),
{
    if i == s.len() - 1 {
        assert(s.remove(i) =~= s.drop_last());
        assert(s.fold_left(z, g) == g(s.drop_last().fold_left(z, g), s.last()));
    } else {
        let dl = s.drop_last();
        lemma_fold_left_pull(dl, z, g, i);
        let a = dl.remove(i).fold_left(z, g);
        assert(s.fold_left(z, g) == g(dl.fold_left(z, g), s.last()));
        assert(dl.fold_left(z, g) == g(a, dl[i]));
        assert(dl[i] == s[i]);
        assert(g(g(a, s[i]), s.last()) == g(a, g(s[i], s.last())));
        assert(g(s[i], s.last()) == g(s.last(), s[i]));
        assert(g(a, g(s.last(), s[i])) == g(g(a, s.last()), s[i]));
        assert(s.remove(i).drop_last() =~= dl.remove(i));
        assert(s.remove(i).last() == s.last());
        assert(s.remove(i).fold_left(z, g) == g(a, s.last()));
    }
}

/// Two sequences holding the same elements, in any orders, fold to the same
/// value under a commutative, associative operation.
pub proof fn lemma_fold_left_multiset<T>(s1: Seq<T>, s2: Seq<T>, z: T, g: spec_fn(T, T) -> T)
    requires
        fn2_commutative(g),
        fn2_associative(g),
        s1.to_multiset() == s2.to_multiset(),
    ensures
        s1.fold_left(z, g) == s2.fold_left(z, g),
    decreases s2.len(),
{
    s1.to_multiset_ensures();
    s2.to_multiset_ensures();
    if s2.len() == 0 {
        assert(s1.len() == 0);
        assert(s1 =~= Seq::<T>::empty());
        assert(s2 =~= Seq::<T>::empty());
    } else {
        let x = s2.last();
        assert(s2.contains(x));
        assert(s2.to_multiset().count(x) > 0);
        assert(s1.to_multiset().count(x) > 0);
        assert(s1.contains(x));
        let i = choose|i: int| 0 <= i < s1.len() && s1[i] == x;
        lemma_fold_left_pull(s1, z, g, i);
        let dl = s2.drop_last();
        dl.to_multiset_ensures();
        s1.remove(i).to_multiset_ensures();
        assert(s2 =~= dl.push(x));
        assert(s2.to_multiset() =~= dl.to_multiset().insert(x));
        assert(s1.remove(i).to_multiset() =~= s1.to_multiset().remove(x));
        assert(s1.remove(i).to_multiset() =~= dl.to_multiset()) by {
            assert forall|y: T| true implies s1.remove(i).to_multiset().count(y)
                == dl.to_multiset().count(y) by {
                assert(s1.to_multiset().count(y) == dl.to_multiset().insert(x).count(y));
            }
        }
        lemma_fold_left_multiset(s1.remove(i), dl, z, g);
        assert(s2.fold_left(z, g) == g(dl.fold_left(z, g), x));
    }
}

/// Extending a fold by one element: if `acc` folds `s` and `r` is a result of
/// `f(acc, x)`, then `r` folds `s` extended with `x`.
pub proof fn lemma_fold_rel_push<T, F: Fn(T, T) -> T>(f: F, init: T, s: Seq<T>, acc: T, x: T, r: T)
    requires
        fold_rel(f, init, s, acc),
        bin_post(f, acc, x, r),
    ensures
        fold_rel(f, init, s.push(x), r),
{
    let trace = choose|trace: Seq<T>| fold_steps(f, init, s, trace) && trace.last() == acc;
    let extended = trace.push(r);
    assert(trace[s.len() as int] == acc);
    assert forall|i: int| 0 <= i < s.push(x).len() implies bin_post(
        f,
        extended[i],
        s.push(x)[i],
        #[trigger] extended[i + 1],
    ) by {
        if i < s.len() {
            assert(bin_post(f, trace[i], s[i], trace[i + 1]));
        }
    }
    assert(fold_steps(f, init, s.push(x), extended));
    assert(extended.last() == r);
}

} // verus!
