//! Stable sorting by document position.
use vstd::prelude::*;

verus! {

/// Things that stand at a place in a document: a major and a minor coordinate.
pub trait Placed: Sized {
    spec fn place(self) -> (int, int);
}

/// Placed things whose place can be read at run time.
pub trait ReadPlace: Placed {
    fn read_place(&self) -> (p: (u32, u32))
        ensures
            p.0 == self.place().0,
            p.1 == self.place().1,
    ;
}

/// Whether place `a` comes strictly before place `b`.
pub open spec fn before(a: (int, int), b: (int, int)) -> bool {
    a.0 < b.0 || (a.0 == b.0 && a.1 < b.1)
}

/// `s` with `x` put in behind everything that does not come after it.
pub open spec fn put_in<T: Placed>(s: Seq<T>, x: T) -> Seq<T>
    decreases s.len(),
{
    if s.len() > 0 && before(x.place(), s.last().place()) {
        put_in(s.drop_last(), x).push(s.last())
    } else {
        s.push(x)
    }
}

/// `s` in document order; things at the same place keep their order.
pub open spec fn sorted<T: Placed>(s: Seq<T>) -> Seq<T>
    decreases s.len(),
{
    if s.len() == 0 {
        s
    } else {
        put_in(sorted(s.drop_last()), s.last())
    }
}

proof fn lemma_put_in_len<T: Placed>(s: Seq<T>, x: T)
    ensures
        put_in(s, x).len() == s.len() + 1,
    decreases s.len(),
{
    if s.len() > 0 {
        lemma_put_in_len(s.drop_last(), x);
    }
}

/// Sorting keeps the number of things.
pub proof fn sorted_keeps_len<T: Placed>(s: Seq<T>)
    ensures
        sorted(s).len() == s.len(),
    decreases s.len(),
{
    if s.len() > 0 {
        sorted_keeps_len(s.drop_last());
        lemma_put_in_len(sorted(s.drop_last()), s.last());
    }
}

/// Whether no thing of `s` comes before an earlier one.
pub open spec fn in_order<T: Placed>(s: Seq<T>) -> bool {
    forall|i: int, j: int|
        #![trigger s[i], s[j]]
        0 <= i < j < s.len() ==> !before(s[j].place(), s[i].place())
}

proof fn lemma_put_in_position<T: Placed>(s: Seq<T>, x: T) -> (j: int)
    ensures
        0 <= j <= s.len(),
        put_in(s, x) == s.insert(j, x),
        forall|k: int| j <= k < s.len() ==> before(x.place(), #[trigger] s[k].place()),
        j > 0 ==> !before(x.place(), s[j - 1].place()),
    decreases s.len(),
{
    if s.len() > 0 && before(x.place(), s.last().place()) {
        let j = lemma_put_in_position(s.drop_last(), x);
        assert forall|k: int| j <= k < s.len() implies before(
            x.place(),
            #[trigger] s[k].place(),
        ) by {
            if k < s.len() - 1 {
                assert(s.drop_last()[k] == s[k]);
            }
        }
        assert(s.drop_last().insert(j, x).push(s.last()) =~= s.insert(j, x));
        j
    } else {
        assert(s.push(x) =~= s.insert(s.len() as int, x));
        s.len() as int
    }
}

/// The sorted list is in document order.
pub proof fn sorted_is_in_order<T: Placed>(s: Seq<T>)
    ensures
        in_order(sorted(s)),
    decreases s.len(),
{
    if s.len() > 0 {
        let before_x = sorted(s.drop_last());
        let x = s.last();
        sorted_is_in_order(s.drop_last());
        let j = lemma_put_in_position(before_x, x);
        let out = before_x.insert(j, x);
        assert forall|a: int, b: int|
            #![trigger out[a], out[b]]
            0 <= a < b < out.len() implies !before(out[b].place(), out[a].place()) by {
            let a0 = if a < j {
                a
            } else {
                a - 1
            };
            let b0 = if b < j {
                b
            } else {
                b - 1
            };
            if a != j && b != j {
                assert(out[a] == before_x[a0] && out[b] == before_x[b0]);
            } else if a == j {
                assert(out[b] == before_x[b0]);
                assert(before(x.place(), before_x[b0].place()));
            } else {
                assert(out[a] == before_x[a]);
                assert(before_x[a] == before_x[a] && before_x[j - 1] == before_x[j - 1]);
            }
        }
    }
}

/// The sorted list holds the same things, each as often.
pub proof fn sorted_is_a_permutation<T: Placed>(s: Seq<T>)
    ensures
        sorted(s).to_multiset() == s.to_multiset(),
    decreases s.len(),
{
    broadcast use vstd::seq_lib::group_to_multiset_ensures;

    if s.len() > 0 {
        let before_x = sorted(s.drop_last());
        sorted_is_a_permutation(s.drop_last());
        let j = lemma_put_in_position(before_x, s.last());
        assert(s.drop_last().push(s.last()) =~= s);
        assert(s.to_multiset() =~= s.drop_last().to_multiset().insert(s.last()));
        assert(sorted(s).to_multiset() =~= before_x.to_multiset().insert(s.last()));
    }
}

/// The things of `s` that stand at `p`, in order.
pub open spec fn at_place<T: Placed>(s: Seq<T>, p: (int, int)) -> Seq<T>
    decreases s.len(),
{
    if s.len() == 0 {
        s
    } else if s.last().place() == p {
        at_place(s.drop_last(), p).push(s.last())
    } else {
        at_place(s.drop_last(), p)
    }
}

proof fn lemma_put_in_at_place<T: Placed>(s: Seq<T>, x: T, p: (int, int))
    requires
        in_order(s),
    ensures
        at_place(put_in(s, x), p) == (if x.place() == p {
            at_place(s, p).push(x)
        } else {
            at_place(s, p)
        }),
    decreases s.len(),
{
    if s.len() > 0 && before(x.place(), s.last().place()) {
        assert(in_order(s.drop_last())) by {
            assert forall|i: int, j: int|
                #![trigger s.drop_last()[i], s.drop_last()[j]]
                0 <= i < j < s.drop_last().len() implies !before(
                s.drop_last()[j].place(),
                s.drop_last()[i].place(),
            ) by {
                assert(s.drop_last()[i] == s[i] && s.drop_last()[j] == s[j]);
            }
        }
        lemma_put_in_at_place(s.drop_last(), x, p);
        assert(put_in(s, x).drop_last() =~= put_in(s.drop_last(), x));
    } else {
        assert(s.push(x).drop_last() =~= s);
    }
}

/// Things at the same place keep their order.
pub proof fn sorted_is_stable<T: Placed>(s: Seq<T>, p: (int, int))
    ensures
        at_place(sorted(s), p) == at_place(s, p),
    decreases s.len(),
{
    if s.len() > 0 {
        sorted_is_stable(s.drop_last(), p);
        sorted_is_in_order(s.drop_last());
        lemma_put_in_at_place(sorted(s.drop_last()), s.last(), p);
    }
}

/// Sorting keeps the things: what is in the sorted list is in the list, and the other way round.
pub proof fn sorted_keeps_items<T: Placed>(s: Seq<T>, x: T)
    ensures
        sorted(s).contains(x) <==> s.contains(x),
{
    broadcast use vstd::seq_lib::group_to_multiset_ensures;

    sorted_is_a_permutation(s);
    assert(sorted(s).contains(x) <==> sorted(s).to_multiset().count(x) > 0);
    assert(s.contains(x) <==> s.to_multiset().count(x) > 0);
}

/// Whether `s` is ordered by place, and by `rank` at the same place.
pub open spec fn ranked<T: Placed>(s: Seq<T>, rank: spec_fn(T) -> int) -> bool {
    forall|i: int, j: int|
        #![trigger s[i], s[j]]
        0 <= i < j < s.len() ==> before(s[i].place(), s[j].place()) || (s[i].place()
            == s[j].place() && rank(s[i]) < rank(s[j]))
}

/// Things that come in the order of their ranks are ordered by place and then by rank once
/// they are sorted.
pub proof fn sorted_is_ranked<T: Placed>(s: Seq<T>, rank: spec_fn(T) -> int)
    requires
        forall|i: int, j: int|
            #![trigger s[i], s[j]]
            0 <= i < j < s.len() ==> rank(s[i]) < rank(s[j]),
    ensures
        ranked(sorted(s), rank),
    decreases s.len(),
{
    if s.len() > 0 {
        let init = s.drop_last();
        let x = s.last();
        assert forall|i: int, j: int|
            #![trigger init[i], init[j]]
            0 <= i < j < init.len() implies rank(init[i]) < rank(init[j]) by {
            assert(init[i] == s[i] && init[j] == s[j]);
        }
        sorted_is_ranked(init, rank);
        sorted_is_in_order(init);
        let done = sorted(init);
        let at = lemma_put_in_position(done, x);
        let out = done.insert(at, x);
        assert forall|i: int, j: int|
            #![trigger out[i], out[j]]
            0 <= i < j < out.len() implies before(out[i].place(), out[j].place()) || (
        out[i].place() == out[j].place() && rank(out[i]) < rank(out[j])) by {
            let i0 = if i < at {
                i
            } else {
                i - 1
            };
            let j0 = if j < at {
                j
            } else {
                j - 1
            };
            if i != at && j != at {
                assert(out[i] == done[i0] && out[j] == done[j0]);
            } else if i == at {
                assert(out[j] == done[j0]);
            } else {
                assert(out[i] == done[i]);
                assert(done[at - 1] == done[at - 1]);
                if i < at - 1 {
                    assert(!before(done[at - 1].place(), done[i].place()));
                }
                assert(!before(x.place(), done[i].place()));
                sorted_keeps_items(init, done[i]);
                assert(done.contains(done[i]));
                let k = choose|k: int| 0 <= k < init.len() && init[k] == done[i];
                assert(s[k] == init[k]);
                assert(s[s.len() - 1] == x);
            }
        }
    }
}

/// Sorting commutes with a map that keeps places.
pub proof fn sorted_commutes_with_map<T: Placed, U: Placed>(s: Seq<T>, f: spec_fn(T) -> U)
    requires
        forall|x: T| (#[trigger] f(x)).place() == x.place(),
    ensures
        sorted(s.map_values(f)) == sorted(s).map_values(f),
    decreases s.len(),
{
    if s.len() > 0 {
        sorted_commutes_with_map(s.drop_last(), f);
        assert(s.map_values(f).drop_last() =~= s.drop_last().map_values(f));
        lemma_put_in_commutes_with_map(sorted(s.drop_last()), s.last(), f);
    } else {
        assert(s.map_values(f) =~= sorted(s).map_values(f));
    }
}

proof fn lemma_put_in_commutes_with_map<T: Placed, U: Placed>(s: Seq<T>, x: T, f: spec_fn(T) -> U)
    requires
        forall|y: T| (#[trigger] f(y)).place() == y.place(),
    ensures
        put_in(s.map_values(f), f(x)) == put_in(s, x).map_values(f),
    decreases s.len(),
{
    if s.len() > 0 && before(x.place(), s.last().place()) {
        lemma_put_in_commutes_with_map(s.drop_last(), x, f);
        assert(s.map_values(f).drop_last() =~= s.drop_last().map_values(f));
        assert(put_in(s.map_values(f), f(x)) =~= put_in(s, x).map_values(f));
    } else {
        if s.len() > 0 {
            assert(s.map_values(f).last() == f(s.last()));
        }
        assert(s.map_values(f).push(f(x)) =~= s.push(x).map_values(f));
    }
}

fn comes_before(a: (u32, u32), b: (u32, u32)) -> (yes: bool)
    ensures
        yes == before((a.0 as int, a.1 as int), (b.0 as int, b.1 as int)),
{
    a.0 < b.0 || (a.0 == b.0 && a.1 < b.1)
}

/// Two sorted lists merged into one; of two things at the same place, that of `a` is first.
spec fn merged<T: Placed>(a: Seq<T>, b: Seq<T>) -> Seq<T>
    decreases a.len() + b.len(),
{
    if b.len() > 0 && (a.len() == 0 || !before(b.last().place(), a.last().place())) {
        merged(a, b.drop_last()).push(b.last())
    } else if a.len() > 0 {
        merged(a.drop_last(), b).push(a.last())
    } else {
        Seq::empty()
    }
}

proof fn lemma_in_order_init<T: Placed>(s: Seq<T>)
    requires
        in_order(s),
        s.len() > 0,
    ensures
        in_order(s.drop_last()),
{
    let init = s.drop_last();
    assert forall|i: int, j: int|
        #![trigger init[i], init[j]]
        0 <= i < j < init.len() implies !before(init[j].place(), init[i].place()) by {
        assert(init[i] == s[i] && init[j] == s[j]);
    }
}

proof fn lemma_at_place_last<T: Placed>(s: Seq<T>, p: (int, int))
    requires
        s.len() > 0,
    ensures
        s.last().place() == p ==> at_place(s, p) == at_place(s.drop_last(), p).push(s.last()),
        s.last().place() != p ==> at_place(s, p) == at_place(s.drop_last(), p),
{
}

proof fn lemma_at_place_concat<T: Placed>(a: Seq<T>, b: Seq<T>, p: (int, int))
    ensures
        at_place(a + b, p) == at_place(a, p) + at_place(b, p),
    decreases b.len(),
{
    if b.len() == 0 {
        assert(a + b =~= a);
        assert(at_place(a, p) + at_place(b, p) =~= at_place(a, p));
    } else {
        assert((a + b).drop_last() =~= a + b.drop_last());
        lemma_at_place_concat(a, b.drop_last(), p);
        assert(at_place(a + b, p) =~= at_place(a, p) + at_place(b, p));
    }
}

/// Something stands at `p` exactly if `at_place` is not empty.
proof fn lemma_at_place_some<T: Placed>(s: Seq<T>, p: (int, int))
    ensures
        at_place(s, p).len() > 0 <==> exists|i: int|
            0 <= i < s.len() && (#[trigger] s[i]).place() == p,
    decreases s.len(),
{
    if s.len() > 0 {
        let init = s.drop_last();
        lemma_at_place_some(init, p);
        if at_place(init, p).len() > 0 {
            let i = choose|i: int| 0 <= i < init.len() && (#[trigger] init[i]).place() == p;
            assert(s[i].place() == p);
        }
        if s.last().place() == p {
            assert(s[s.len() - 1].place() == p);
        }
        if exists|i: int| 0 <= i < s.len() && (#[trigger] s[i]).place() == p {
            let i = choose|i: int| 0 <= i < s.len() && (#[trigger] s[i]).place() == p;
            if i < s.len() - 1 {
                assert(init[i].place() == p);
            }
        }
    }
}

/// The elements of an ordered list that come last stand where the last one does.
proof fn lemma_last_is_last<T: Placed>(s: Seq<T>, i: int)
    requires
        in_order(s),
        0 <= i < s.len(),
    ensures
        !before(s.last().place(), s[i].place()),
{
    if i < s.len() - 1 {
        assert(s[i] == s[i] && s[s.len() - 1] == s.last());
    }
}

/// An ordered list is known by what stands at each place.
pub proof fn ordered_lists_agree<T: Placed>(x: Seq<T>, y: Seq<T>)
    requires
        in_order(x),
        in_order(y),
        forall|p: (int, int)| #[trigger] at_place(x, p) == at_place(y, p),
    ensures
        x == y,
    decreases x.len(),
{
    if x.len() == 0 {
        if y.len() > 0 {
            let p = y.last().place();
            lemma_at_place_last(y, p);
            assert(at_place(x, p) == at_place(y, p));
        }
        assert(x =~= y);
    } else {
        let p = x.last().place();
        lemma_at_place_last(x, p);
        assert(at_place(x, p) == at_place(y, p));
        lemma_at_place_some(y, p);
        let i = choose|i: int| 0 <= i < y.len() && (#[trigger] y[i]).place() == p;
        lemma_last_is_last(y, i);
        let q = y.last().place();
        lemma_at_place_last(y, q);
        assert(at_place(x, q) == at_place(y, q));
        lemma_at_place_some(x, q);
        let j = choose|j: int| 0 <= j < x.len() && (#[trigger] x[j]).place() == q;
        lemma_last_is_last(x, j);
        assert(p == q);
        assert(x.last() == y.last()) by {
            assert(at_place(x, p).last() == x.last());
            assert(at_place(y, p).last() == y.last());
        }
        lemma_in_order_init(x);
        lemma_in_order_init(y);
        assert forall|r: (int, int)| #[trigger]
            at_place(x.drop_last(), r) == at_place(y.drop_last(), r) by {
            lemma_at_place_last(x, r);
            lemma_at_place_last(y, r);
            assert(at_place(x, r) == at_place(y, r));
            if r == p {
                assert(at_place(x.drop_last(), r) =~= at_place(x, r).drop_last());
                assert(at_place(y.drop_last(), r) =~= at_place(y, r).drop_last());
            }
        }
        ordered_lists_agree(x.drop_last(), y.drop_last());
        assert(x =~= x.drop_last().push(x.last()));
        assert(y =~= y.drop_last().push(y.last()));
    }
}

proof fn lemma_merged_bound<T: Placed>(a: Seq<T>, b: Seq<T>, p: (int, int))
    requires
        forall|i: int| 0 <= i < a.len() ==> !before(p, (#[trigger] a[i]).place()),
        forall|i: int| 0 <= i < b.len() ==> !before(p, (#[trigger] b[i]).place()),
    ensures
        forall|i: int|
            0 <= i < merged(a, b).len() ==> !before(p, (#[trigger] merged(a, b)[i]).place()),
    decreases a.len() + b.len(),
{
    if b.len() > 0 && (a.len() == 0 || !before(b.last().place(), a.last().place())) {
        lemma_merged_bound(a, b.drop_last(), p);
        assert(b[b.len() - 1] == b.last());
        assert(merged(a, b).drop_last() =~= merged(a, b.drop_last()));
    } else if a.len() > 0 {
        lemma_merged_bound(a.drop_last(), b, p);
        assert(a[a.len() - 1] == a.last());
        assert(merged(a, b).drop_last() =~= merged(a.drop_last(), b));
    }
    assert forall|i: int| 0 <= i < merged(a, b).len() implies !before(
        p,
        (#[trigger] merged(a, b)[i]).place(),
    ) by {
        if i < merged(a, b).len() - 1 {
            assert(merged(a, b).drop_last()[i] == merged(a, b)[i]);
        }
    }
}

proof fn lemma_in_order_push<T: Placed>(s: Seq<T>, x: T)
    requires
        in_order(s),
        forall|i: int| 0 <= i < s.len() ==> !before(x.place(), (#[trigger] s[i]).place()),
    ensures
        in_order(s.push(x)),
{
    let out = s.push(x);
    assert forall|i: int, j: int|
        #![trigger out[i], out[j]]
        0 <= i < j < out.len() implies !before(out[j].place(), out[i].place()) by {
        assert(out[i] == s[i]);
        if j < s.len() {
            assert(out[j] == s[j]);
        }
    }
}

proof fn lemma_merged<T: Placed>(a: Seq<T>, b: Seq<T>)
    requires
        in_order(a),
        in_order(b),
    ensures
        in_order(merged(a, b)),
        forall|p: (int, int)| #[trigger]
            at_place(merged(a, b), p) == at_place(a, p) + at_place(b, p),
    decreases a.len() + b.len(),
{
    if b.len() > 0 && (a.len() == 0 || !before(b.last().place(), a.last().place())) {
        let x = b.last();
        let init = b.drop_last();
        lemma_in_order_init(b);
        lemma_merged(a, init);
        assert forall|i: int| 0 <= i < a.len() implies !before(
            x.place(),
            (#[trigger] a[i]).place(),
        ) by {
            lemma_last_is_last(a, i);
        }
        assert forall|i: int| 0 <= i < init.len() implies !before(
            x.place(),
            (#[trigger] init[i]).place(),
        ) by {
            lemma_last_is_last(b, i);
        }
        lemma_merged_bound(a, init, x.place());
        lemma_in_order_push(merged(a, init), x);
        assert(merged(a, b).drop_last() =~= merged(a, init));
        assert forall|p: (int, int)| #[trigger]
            at_place(merged(a, b), p) == at_place(a, p) + at_place(b, p) by {
            lemma_at_place_last(merged(a, b), p);
            lemma_at_place_last(b, p);
            assert(at_place(merged(a, init), p) == at_place(a, p) + at_place(init, p));
            assert(at_place(merged(a, b), p) =~= at_place(a, p) + at_place(b, p));
        }
    } else if a.len() > 0 {
        let x = a.last();
        let init = a.drop_last();
        lemma_in_order_init(a);
        lemma_merged(init, b);
        assert forall|i: int| 0 <= i < init.len() implies !before(
            x.place(),
            (#[trigger] init[i]).place(),
        ) by {
            lemma_last_is_last(a, i);
        }
        assert forall|i: int| 0 <= i < b.len() implies before(
            (#[trigger] b[i]).place(),
            x.place(),
        ) by {
            lemma_last_is_last(b, i);
        }
        lemma_merged_bound(init, b, x.place());
        lemma_in_order_push(merged(init, b), x);
        assert(merged(a, b).drop_last() =~= merged(init, b));
        assert forall|p: (int, int)| #[trigger]
            at_place(merged(a, b), p) == at_place(a, p) + at_place(b, p) by {
            lemma_at_place_last(merged(a, b), p);
            lemma_at_place_last(a, p);
            assert(at_place(merged(init, b), p) == at_place(init, p) + at_place(b, p));
            if x.place() == p {
                lemma_at_place_some(b, p);
                assert(at_place(b, p).len() == 0);
            }
            assert(at_place(merged(a, b), p) =~= at_place(a, p) + at_place(b, p));
        }
    } else {
        assert forall|p: (int, int)| #[trigger]
            at_place(merged(a, b), p) == at_place(a, p) + at_place(b, p) by {
            assert(at_place(merged(a, b), p) =~= at_place(a, p) + at_place(b, p));
        }
    }
}

proof fn lemma_merge_sorts<T: Placed>(a: Seq<T>, b: Seq<T>)
    ensures
        merged(sorted(a), sorted(b)) == sorted(a + b),
{
    sorted_is_in_order(a);
    sorted_is_in_order(b);
    sorted_is_in_order(a + b);
    lemma_merged(sorted(a), sorted(b));
    assert forall|p: (int, int)| #[trigger]
        at_place(merged(sorted(a), sorted(b)), p) == at_place(sorted(a + b), p) by {
        sorted_is_stable(a, p);
        sorted_is_stable(b, p);
        sorted_is_stable(a + b, p);
        lemma_at_place_concat(a, b, p);
    }
    ordered_lists_agree(merged(sorted(a), sorted(b)), sorted(a + b));
}

fn merge<T: ReadPlace>(a: Vec<T>, b: Vec<T>) -> (out: Vec<T>)
    ensures
        out@ == merged(a@, b@),
{
    let ghost whole = merged(a@, b@);
    let mut a = a;
    let mut b = b;
    let mut back: Vec<T> = Vec::new();
    assert(merged(a@, b@) + back@.reverse() =~= whole);
    while a.len() > 0 || b.len() > 0
        invariant
            merged(a@, b@) + back@.reverse() == whole,
        decreases a@.len() + b@.len(),
    {
        let ghost (a0, b0, back0) = (a@, b@, back@);
        let take_b = b.len() > 0 && (a.len() == 0 || !comes_before(
            b[b.len() - 1].read_place(),
            a[a.len() - 1].read_place(),
        ));
        let x = if take_b {
            b.pop().unwrap()
        } else {
            a.pop().unwrap()
        };
        back.push(x);
        proof {
            assert(merged(a0, b0) == merged(a@, b@).push(x));
            assert(merged(a@, b@) + back@.reverse() =~= merged(a0, b0) + back0.reverse());
        }
    }
    let mut out: Vec<T> = Vec::new();
    assert(out@ + back@.reverse() =~= whole);
    while back.len() > 0
        invariant
            out@ + back@.reverse() == whole,
        decreases back@.len(),
    {
        let ghost (out0, back0) = (out@, back@);
        let x = back.pop().unwrap();
        out.push(x);
        assert(out@ + back@.reverse() =~= out0 + back0.reverse());
    }
    assert(out@ =~= whole);
    out
}

fn merge_sort<T: ReadPlace>(v: Vec<T>) -> (out: Vec<T>)
    ensures
        out@ == sorted(v@),
    decreases v@.len(),
{
    let n = v.len();
    if n < 2 {
        proof {
            reveal_with_fuel(sorted, 3);
            if n == 1 {
                assert(v@.drop_last() =~= Seq::<T>::empty());
                assert(sorted(v@) =~= v@);
            }
        }
        return v;
    }
    let ghost all = v@;
    let mut left = v;
    let right = left.split_off(n / 2);
    assert(left@ + right@ =~= all);
    proof {
        lemma_merge_sorts(left@, right@);
    }
    merge(merge_sort(left), merge_sort(right))
}

/// Sorts `v` by place, stably.
pub fn sort_by_place<T: ReadPlace>(v: &mut Vec<T>)
    ensures
        final(v)@ == sorted(old(v)@),
{
    let items = v.split_off(0);
    assert(items@ =~= old(v)@);
    let mut out = merge_sort(items);
    v.append(&mut out);
    assert(v@ =~= sorted(old(v)@));
}

} // verus!
