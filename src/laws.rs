//! What holds of every sequence of `intern` calls, stated over the table model
//! that `Interner::intern` and `Interner::lookup` are specified by.
use vstd::prelude::*;
use crate::interner::{interned, handle_of};

verus! {

/// The table after interning each of `xs` in turn into an empty one.
pub open spec fn table_after(xs: Seq<Seq<char>>) -> Seq<Seq<char>>
    decreases xs.len(),
{
    if xs.len() == 0 {
        Seq::empty()
    } else {
        interned(table_after(xs.drop_last()), xs.last())
    }
}

/// The handles returned when interning each of `xs` in turn into an empty table.
pub open spec fn handles_for(xs: Seq<Seq<char>>) -> Seq<nat> {
    Seq::new(xs.len(), |i: int| handle_of(table_after(xs.take(i)), xs[i]))
}

/// Handle `h` is returned while interning `xs`, and where it is first
/// returned only smaller handles came before it.
pub open spec fn returned_in_order(xs: Seq<Seq<char>>, h: nat) -> bool {
    exists|i: int|
        #![trigger handles_for(xs)[i]]
        0 <= i < xs.len() && handles_for(xs)[i] == h && forall|k: int|
            0 <= k < i ==> handles_for(xs)[k] < h
}

/// One `intern` step: the handle names `s` in the new table, which extends the
/// old one and stays free of duplicates.
pub proof fn lemma_intern_step(t: Seq<Seq<char>>, s: Seq<char>)
    requires
        t.no_duplicates(),
    ensures
        interned(t, s).no_duplicates(),
        handle_of(t, s) < interned(t, s).len(),
        interned(t, s)[handle_of(t, s) as int] == s,
        t.len() <= interned(t, s).len() <= t.len() + 1,
        interned(t, s).subrange(0, t.len() as int) == t,
        !t.contains(s) ==> handle_of(t, s) == t.len(),
{
    if t.contains(s) {
        assert(t.subrange(0, t.len() as int) =~= t);
    } else {
        let u = t.push(s);
        assert(u.subrange(0, t.len() as int) =~= t);
        assert forall|i: int, j: int|
            0 <= i < u.len() && 0 <= j < u.len() && i != j implies u[i] != u[j] by {
            if i < t.len() && j == t.len() {
                assert(t[i] == u[i]);
            } else if j < t.len() && i == t.len() {
                assert(t[j] == u[j]);
            }
        }
    }
}

/// Interning a text again gives the handle it got the first time and leaves
/// the table as it was; so any number of repeats all give that one handle.
pub proof fn lemma_intern_idempotent(t: Seq<Seq<char>>, s: Seq<char>)
    requires
        t.no_duplicates(),
    ensures
        interned(interned(t, s), s) == interned(t, s),
        handle_of(interned(t, s), s) == handle_of(t, s),
{
    lemma_intern_step(t, s);
    let u = interned(t, s);
    let h = handle_of(t, s);
    assert(u.contains(s)) by {
        assert(u[h as int] == s);
    }
    let i = u.index_of(s);
    assert(u[i] == s);
}

/// Texts that differ get handles that differ, in whichever order they come.
pub proof fn lemma_intern_injective(t: Seq<Seq<char>>, s1: Seq<char>, s2: Seq<char>)
    requires
        t.no_duplicates(),
        s1 != s2,
    ensures
        handle_of(t, s1) != handle_of(interned(t, s1), s2),
{
    lemma_intern_step(t, s1);
    let u = interned(t, s1);
    lemma_intern_step(u, s2);
    let w = interned(u, s2);
    let h1 = handle_of(t, s1);
    assert(w[h1 as int] == w.subrange(0, u.len() as int)[h1 as int]);
}

/// Looking up the handle that interning gave returns the text interned.
pub proof fn lemma_round_trip(t: Seq<Seq<char>>, s: Seq<char>)
    requires
        t.no_duplicates(),
    ensures
        handle_of(t, s) < interned(t, s).len(),
        interned(t, s)[handle_of(t, s) as int] == s,
{
    lemma_intern_step(t, s);
}

/// `u` is what table `t` becomes after any number of further `intern` calls:
/// it starts with `t` and names no text twice.
pub open spec fn grown_from(u: Seq<Seq<char>>, t: Seq<Seq<char>>) -> bool {
    &&& u.no_duplicates()
    &&& t.len() <= u.len()
    &&& u.subrange(0, t.len() as int) == t
}

/// One `intern` call grows the table in that sense.
pub proof fn lemma_intern_grows(t: Seq<Seq<char>>, s: Seq<char>)
    requires
        t.no_duplicates(),
    ensures
        grown_from(interned(t, s), t),
{
    lemma_intern_step(t, s);
}

/// A table without duplicates is grown from itself, by no calls.
pub proof fn lemma_grown_refl(t: Seq<Seq<char>>)
    requires
        t.no_duplicates(),
    ensures
        grown_from(t, t),
{
    assert(t.subrange(0, t.len() as int) =~= t);
}

/// Growing twice is growing.
pub proof fn lemma_grown_trans(v: Seq<Seq<char>>, u: Seq<Seq<char>>, t: Seq<Seq<char>>)
    requires
        grown_from(v, u),
        grown_from(u, t),
    ensures
        grown_from(v, t),
{
    assert(v.subrange(0, t.len() as int) =~= v.subrange(0, u.len() as int).subrange(
        0,
        t.len() as int,
    ));
}

/// The handle that interning `s` gave keeps naming `s` however many texts are
/// interned after it, and interning `s` again at any later point gives that
/// same handle and changes nothing.
pub proof fn lemma_handle_stable(t: Seq<Seq<char>>, s: Seq<char>, u: Seq<Seq<char>>)
    requires
        t.no_duplicates(),
        grown_from(u, interned(t, s)),
    ensures
        handle_of(t, s) < u.len(),
        u[handle_of(t, s) as int] == s,
        handle_of(u, s) == handle_of(t, s),
        interned(u, s) == u,
{
    lemma_intern_step(t, s);
    let t1 = interned(t, s);
    let h = handle_of(t, s) as int;
    assert(u.subrange(0, t1.len() as int)[h] == u[h]);
    assert(u.contains(s));
    let i = u.index_of(s);
    assert(u[i] == s);
}

/// A text that differs from `s1` never gets the handle of `s1`, however many
/// texts were interned in between.
pub proof fn lemma_distinct_later(
    t: Seq<Seq<char>>,
    s1: Seq<char>,
    u: Seq<Seq<char>>,
    s2: Seq<char>,
)
    requires
        t.no_duplicates(),
        grown_from(u, interned(t, s1)),
        s1 != s2,
    ensures
        handle_of(u, s2) != handle_of(t, s1),
{
    lemma_handle_stable(t, s1, u);
    lemma_intern_step(u, s2);
    let h1 = handle_of(t, s1) as int;
    assert(interned(u, s2).subrange(0, u.len() as int)[h1] == interned(u, s2)[h1]);
}

/// Interning one more text extends both the table and the handles returned by
/// one step, so a run of `intern` calls can be followed with `table_after`.
pub proof fn lemma_table_after_push(xs: Seq<Seq<char>>, s: Seq<char>)
    ensures
        table_after(xs.push(s)) == interned(table_after(xs), s),
        handles_for(xs.push(s)) == handles_for(xs).push(handle_of(table_after(xs), s)),
{
    let ys = xs.push(s);
    assert(ys.drop_last() =~= xs);
    assert(ys.take(xs.len() as int) =~= xs);
    assert forall|i: int| 0 <= i < xs.len() implies ys.take(i) == xs.take(i) by {
        assert(ys.take(i) =~= xs.take(i));
    }
    assert(handles_for(ys) =~= handles_for(xs).push(handle_of(table_after(xs), s)));
}

/// Handles are dense and given in order of first occurrence: every handle
/// returned names its text in the final table, and each handle below the
/// number of distinct texts is returned, first at a point where only smaller
/// handles came before it.
pub proof fn lemma_dense(xs: Seq<Seq<char>>)
    ensures
        table_after(xs).no_duplicates(),
        forall|i: int|
            #![trigger handles_for(xs)[i]]
            0 <= i < xs.len() ==> handles_for(xs)[i] < table_after(xs).len()
                && table_after(xs)[handles_for(xs)[i] as int] == xs[i]
                && handles_for(xs)[i] == table_after(xs).index_of(xs[i]),
        forall|h: nat| h < table_after(xs).len() ==> #[trigger] returned_in_order(xs, h),
    decreases xs.len(),
{
    lemma_dense_positions(xs);
    let t = table_after(xs);
    assert forall|i: int|
        #![trigger handles_for(xs)[i]]
        0 <= i < xs.len() implies handles_for(xs)[i] == t.index_of(xs[i]) by {
        let h = handles_for(xs)[i] as int;
        assert(0 <= h < t.len() && t[h] == xs[i]);
        assert(t.contains(xs[i]));
        let j = t.index_of(xs[i]);
        assert(t[j] == xs[i]);
    }
}

proof fn lemma_dense_positions(xs: Seq<Seq<char>>)
    ensures
        table_after(xs).no_duplicates(),
        forall|i: int|
            #![trigger handles_for(xs)[i]]
            0 <= i < xs.len() ==> handles_for(xs)[i] < table_after(xs).len()
                && table_after(xs)[handles_for(xs)[i] as int] == xs[i],
        forall|h: nat| h < table_after(xs).len() ==> #[trigger] returned_in_order(xs, h),
    decreases xs.len(),
{
    if xs.len() > 0 {
        let ys = xs.drop_last();
        let s = xs.last();
        lemma_dense_positions(ys);
        let t0 = table_after(ys);
        let t = table_after(xs);
        lemma_intern_step(t0, s);
        let n = ys.len() as int;
        assert(xs.take(n) =~= ys);
        assert forall|i: int| 0 <= i < n implies handles_for(xs)[i] == handles_for(ys)[i] by {
            assert(xs.take(i) =~= ys.take(i));
        }
        assert forall|i: int|
            #![trigger handles_for(xs)[i]]
            0 <= i < xs.len() implies handles_for(xs)[i] < t.len() && t[handles_for(xs)[i] as int]
                == xs[i] by {
            if i < n {
                let h = handles_for(ys)[i];
                assert(t.subrange(0, t0.len() as int)[h as int] == t[h as int]);
            }
        }
        assert forall|h: nat| h < t.len() implies #[trigger] returned_in_order(xs, h) by {
            if h < t0.len() {
                assert(returned_in_order(ys, h));
                let i = choose|i: int|
                    #![trigger handles_for(ys)[i]]
                    0 <= i < ys.len() && handles_for(ys)[i] == h && forall|k: int|
                        0 <= k < i ==> handles_for(ys)[k] < h;
                assert(handles_for(xs)[i] == h);
            } else {
                assert(t.len() == t0.len() + 1);
                assert(!t0.contains(s));
                assert(handles_for(xs)[n] == h);
                assert forall|k: int| 0 <= k < n implies handles_for(xs)[k] < h by {
                    assert(handles_for(ys)[k] < t0.len());
                }
            }
        }
    }
}

/// The table after interning `xs` holds each distinct text of `xs` exactly
/// once, so its length, the unique count, is the number of distinct texts.
pub proof fn lemma_unique_count(xs: Seq<Seq<char>>)
    ensures
        table_after(xs).no_duplicates(),
        table_after(xs).to_set() == xs.to_set(),
        table_after(xs).len() == xs.to_set().len(),
    decreases xs.len(),
{
    if xs.len() > 0 {
        let ys = xs.drop_last();
        let s = xs.last();
        lemma_unique_count(ys);
        let t0 = table_after(ys);
        lemma_intern_step(t0, s);
        let t = table_after(xs);
        assert(xs =~= ys.push(s));
        assert(t.to_set() =~= xs.to_set()) by {
            assert forall|x: Seq<char>| t.to_set().contains(x) <==> xs.to_set().contains(x) by {
                if t.to_set().contains(x) {
                    let i = choose|i: int| 0 <= i < t.len() && t[i] == x;
                    if i < t0.len() {
                        assert(t.subrange(0, t0.len() as int)[i] == t[i]);
                        assert(t0.to_set().contains(x));
                        assert(ys.to_set().contains(x));
                        let k = choose|k: int| 0 <= k < ys.len() && ys[k] == x;
                        assert(xs[k] == x);
                    } else {
                        assert(xs[xs.len() - 1] == x);
                    }
                }
                if xs.to_set().contains(x) {
                    let k = choose|k: int| 0 <= k < xs.len() && xs[k] == x;
                    if k < ys.len() {
                        assert(ys[k] == x);
                        assert(ys.to_set().contains(x));
                        assert(t0.to_set().contains(x));
                        let i = choose|i: int| 0 <= i < t0.len() && t0[i] == x;
                        assert(t.subrange(0, t0.len() as int)[i] == t[i]);
                    } else {
                        assert(t[handle_of(t0, s) as int] == x);
                    }
                }
            }
        }
        t.unique_seq_to_set();
    } else {
        assert(xs.to_set() =~= Set::<Seq<char>>::empty());
        assert(table_after(xs).to_set() =~= Set::<Seq<char>>::empty());
    }
}

} // verus!
