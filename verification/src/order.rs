//! Lists kept in order: the order of sequences by their first difference, and
//! a list with one more entry put in its place.

use vstd::prelude::*;

verus! {

/// Whether `a` comes before `b` in the order of sequences: at the first place
/// where they differ the entry of `a` comes before that of `b`, or `a` ends
/// there and `b` does not.
pub open spec fn lex_less<T>(a: Seq<T>, b: Seq<T>, less: spec_fn(T, T) -> bool) -> bool
    decreases a.len(),
{
    if b.len() == 0 {
        false
    } else if a.len() == 0 {
        true
    } else if a[0] != b[0] {
        less(a[0], b[0])
    } else {
        lex_less(a.skip(1), b.skip(1), less)
    }
}

/// Every entry comes before all entries behind it.
pub open spec fn increasing<T>(list: Seq<T>, less: spec_fn(T, T) -> bool) -> bool {
    forall|i: int, j: int| 0 <= i < j < list.len() ==> less(#[trigger] list[i], #[trigger] list[j])
}

/// `less` orders any two different values, one way only, and passes on.
pub open spec fn strict_total<T>(less: spec_fn(T, T) -> bool) -> bool {
    &&& forall|a: T, b: T| a == b || #[trigger] less(a, b) || less(b, a)
    &&& forall|a: T, b: T, c: T| #[trigger] less(a, b) && #[trigger] less(b, c) ==> less(a, c)
    &&& forall|a: T| !#[trigger] less(a, a)
}

/// A list with `x` put in place: unchanged if `x` is found before any entry
/// that comes before `x`, seen from the end; else with `x` put behind the
/// last entry that comes before it.
pub open spec fn place<T>(list: Seq<T>, x: T, less: spec_fn(T, T) -> bool) -> Seq<T>
    decreases list.len(),
{
    if list.len() == 0 {
        seq![x]
    } else if list.last() == x {
        list
    } else if less(list.last(), x) {
        list.push(x)
    } else {
        place(list.drop_last(), x, less).push(list.last())
    }
}

/// No sequence comes before itself.
pub proof fn lemma_lex_irreflexive<T>(a: Seq<T>, less: spec_fn(T, T) -> bool)
    ensures
        !lex_less(a, a, less),
    decreases a.len(),
{
    if a.len() > 0 {
        lemma_lex_irreflexive(a.skip(1), less);
    }
}

/// Of two different sequences one comes before the other.
pub proof fn lemma_lex_total<T>(a: Seq<T>, b: Seq<T>, less: spec_fn(T, T) -> bool)
    requires
        strict_total(less),
    ensures
        a == b || lex_less(a, b, less) || lex_less(b, a, less),
    decreases a.len(),
{
    if a.len() > 0 && b.len() > 0 {
        if a[0] == b[0] {
            lemma_lex_total(a.skip(1), b.skip(1), less);
            if a.skip(1) == b.skip(1) {
                assert(a =~= seq![a[0]] + a.skip(1));
                assert(b =~= seq![b[0]] + b.skip(1));
            }
        } else {
            assert(less(a[0], b[0]) || less(b[0], a[0]));
        }
    } else if a.len() == 0 && b.len() == 0 {
        assert(a =~= b);
    }
}

/// The order of sequences passes on.
pub proof fn lemma_lex_transitive<T>(
    a: Seq<T>,
    b: Seq<T>,
    c: Seq<T>,
    less: spec_fn(T, T) -> bool,
)
    requires
        strict_total(less),
        lex_less(a, b, less),
        lex_less(b, c, less),
    ensures
        lex_less(a, c, less),
    decreases a.len(),
{
    if a.len() > 0 && b.len() > 0 && c.len() > 0 {
        if a[0] == b[0] && b[0] == c[0] {
            lemma_lex_transitive(a.skip(1), b.skip(1), c.skip(1), less);
        } else if a[0] != b[0] && b[0] != c[0] {
            assert(less(a[0], b[0]) && less(b[0], c[0]));
            assert(less(a[0], c[0]));
            assert(!less(a[0], a[0]));
        }
    }
}

/// `place` leaves the entries behind position `i` alone if none of them is
/// `x` or comes before `x`.
pub proof fn lemma_place_tail<T>(list: Seq<T>, x: T, less: spec_fn(T, T) -> bool, i: int)
    requires
        0 <= i <= list.len(),
        forall|k: int| i <= k < list.len() ==> list[k] != x && !less(list[k], x),
    ensures
        place(list, x, less) == place(list.take(i), x, less) + list.skip(i),
    decreases list.len() - i,
{
    if i == list.len() {
        assert(list.take(i) =~= list);
        assert(place(list, x, less) + list.skip(i) =~= place(list, x, less));
    } else {
        let t = list.drop_last();
        lemma_place_tail(t, x, less, i);
        assert(t.take(i) =~= list.take(i));
        assert((place(list.take(i), x, less) + t.skip(i)).push(list.last()) =~= place(
            list.take(i),
            x,
            less,
        ) + list.skip(i));
    }
}

/// `place` adds `x` to the entries of the list and nothing else.
pub proof fn lemma_place_entries<T>(list: Seq<T>, x: T, less: spec_fn(T, T) -> bool)
    ensures
        forall|y: T| #[trigger] place(list, x, less).contains(y) <==> list.contains(y) || y == x,
    decreases list.len(),
{
    let out = place(list, x, less);
    if list.len() == 0 {
        assert(out[0] == x);
    } else if list.last() == x {
        assert(list[list.len() - 1] == x);
    } else if less(list.last(), x) {
        assert forall|y: T| #[trigger] out.contains(y) <==> list.contains(y) || y == x by {
            if list.contains(y) {
                let k = choose|k: int| 0 <= k < list.len() && list[k] == y;
                assert(out[k] == y);
            }
            if y == x {
                assert(out[list.len() as int] == y);
            }
        }
    } else {
        let t = list.drop_last();
        lemma_place_entries(t, x, less);
        let r = place(t, x, less);
        assert forall|y: T| #[trigger] out.contains(y) <==> list.contains(y) || y == x by {
            if list.contains(y) {
                let k = choose|k: int| 0 <= k < list.len() && list[k] == y;
                if k < t.len() {
                    assert(t[k] == y);
                    assert(t.contains(y));
                    assert(r.contains(y));
                    let m = choose|m: int| 0 <= m < r.len() && r[m] == y;
                    assert(out[m] == y);
                } else {
                    assert(out[r.len() as int] == y);
                }
            }
            if y == x {
                assert(r.contains(x));
                let m = choose|m: int| 0 <= m < r.len() && r[m] == x;
                assert(out[m] == y);
            }
            if out.contains(y) {
                let k = choose|k: int| 0 <= k < out.len() && out[k] == y;
                if k < r.len() {
                    assert(r[k] == y);
                    assert(r.contains(y));
                    if t.contains(y) {
                        let m = choose|m: int| 0 <= m < t.len() && t[m] == y;
                        assert(list[m] == y);
                    }
                } else {
                    assert(list[list.len() - 1] == y);
                }
            }
        }
    }
}

/// Putting an entry in place keeps an increasing list increasing.
pub proof fn lemma_place_increasing<T>(list: Seq<T>, x: T, less: spec_fn(T, T) -> bool)
    requires
        strict_total(less),
        increasing(list, less),
    ensures
        increasing(place(list, x, less), less),
    decreases list.len(),
{
    let out = place(list, x, less);
    if list.len() == 0 {
    } else if list.last() == x {
    } else if less(list.last(), x) {
        assert forall|i: int, j: int| 0 <= i < j < out.len() implies less(
            #[trigger] out[i],
            #[trigger] out[j],
        ) by {
            if j == list.len() && i < list.len() - 1 {
                assert(less(list[i], list[list.len() - 1]));
                assert(less(list.last(), x));
            }
        }
    } else {
        let t = list.drop_last();
        assert(increasing(t, less)) by {
            assert forall|i: int, j: int| 0 <= i < j < t.len() implies less(
                #[trigger] t[i],
                #[trigger] t[j],
            ) by {
                assert(less(list[i], list[j]));
            }
        }
        lemma_place_increasing(t, x, less);
        lemma_place_entries(t, x, less);
        let r = place(t, x, less);
        assert(less(x, list.last()));
        assert forall|i: int, j: int| 0 <= i < j < out.len() implies less(
            #[trigger] out[i],
            #[trigger] out[j],
        ) by {
            if j == r.len() {
                assert(r.contains(r[i]));
                if r[i] != x {
                    assert(t.contains(r[i]));
                    let m = choose|m: int| 0 <= m < t.len() && t[m] == r[i];
                    assert(less(list[m], list[list.len() - 1]));
                }
            } else {
                assert(less(r[i], r[j]));
            }
        }
    }
}

/// Putting a new entry in place makes the list longer by one.
pub proof fn lemma_place_len<T>(list: Seq<T>, x: T, less: spec_fn(T, T) -> bool)
    requires
        !list.contains(x),
    ensures
        place(list, x, less).len() == list.len() + 1,
    decreases list.len(),
{
    if list.len() > 0 {
        let t = list.drop_last();
        assert(list[list.len() - 1] != x);
        assert(!t.contains(x)) by {
            if t.contains(x) {
                let k = choose|k: int| 0 <= k < t.len() && t[k] == x;
                assert(list[k] == x);
            }
        }
        lemma_place_len(t, x, less);
    }
}

} // verus!
