use vstd::prelude::*;

use crate::task::Task;

verus! {

/// The mathematical model of the index: its in-order listing, one entry per
/// distinct rank, each entry carrying that rank's tasks in arrival order.
pub type Listing = Seq<(i32, Seq<Task>)>;

/// A listing entry is a non-empty chain whose tasks all carry the entry's rank.
pub open spec fn entry_wf(e: (i32, Seq<Task>)) -> bool {
    &&& e.1.len() > 0
    &&& forall|j: int| 0 <= j < e.1.len() ==> (#[trigger] e.1[j]).rank == e.0
}

/// Ranks strictly increase along the listing, so each rank has one entry.
pub open spec fn sorted(s: Listing) -> bool {
    forall|i: int, j: int|
        0 <= i < j < s.len() ==> (#[trigger] s[i]).0 < (#[trigger] s[j]).0
}

pub open spec fn listing_wf(s: Listing) -> bool {
    &&& sorted(s)
    &&& forall|i: int| 0 <= i < s.len() ==> entry_wf(#[trigger] s[i])
}

pub open spec fn all_lt(s: Listing, b: i32) -> bool {
    forall|i: int| 0 <= i < s.len() ==> (#[trigger] s[i]).0 < b
}

pub open spec fn all_gt(s: Listing, b: i32) -> bool {
    forall|i: int| 0 <= i < s.len() ==> (#[trigger] s[i]).0 > b
}

/// What one insertion does to the listing: a task of a fresh rank opens a new
/// entry at its sorted position; a task of a present rank is appended to that
/// rank's chain.
pub open spec fn seq_insert(s: Listing, t: Task) -> Listing
    decreases s.len(),
{
    if s.len() == 0 {
        seq![(t.rank, seq![t])]
    } else if t.rank < s[0].0 {
        seq![(t.rank, seq![t])] + s
    } else if t.rank == s[0].0 {
        seq![(s[0].0, s[0].1.push(t))] + s.drop_first()
    } else {
        seq![s[0]] + seq_insert(s.drop_first(), t)
    }
}

/// The chain held at a rank, or the empty sequence when the rank is absent.
pub open spec fn chain_of(s: Listing, r: i32) -> Seq<Task>
    decreases s.len(),
{
    if s.len() == 0 {
        Seq::empty()
    } else if s[0].0 == r {
        s[0].1
    } else {
        chain_of(s.drop_first(), r)
    }
}

/// Inserting a whole sequence of tasks, first to last.
pub open spec fn insert_all(s: Listing, ts: Seq<Task>) -> Listing
    decreases ts.len(),
{
    if ts.len() == 0 {
        s
    } else {
        insert_all(seq_insert(s, ts.first()), ts.drop_first())
    }
}

/// The subsequence of tasks carrying a given rank, in their original order.
pub open spec fn with_rank(ts: Seq<Task>, r: i32) -> Seq<Task>
    decreases ts.len(),
{
    if ts.len() == 0 {
        Seq::empty()
    } else if ts.first().rank == r {
        seq![ts.first()] + with_rank(ts.drop_first(), r)
    } else {
        with_rank(ts.drop_first(), r)
    }
}

/// The listing described by an in-order result vector.
pub open spec fn vec_listing(v: Seq<(i32, Vec<Task>)>) -> Listing {
    v.map_values(|p: (i32, Vec<Task>)| (p.0, p.1@))
}

pub open spec fn fib(n: nat) -> nat
    decreases n,
{
    if n == 0 {
        0
    } else if n == 1 {
        1
    } else {
        fib((n - 1) as nat) + fib((n - 2) as nat)
    }
}

pub proof fn lemma_fib_mono(m: nat, n: nat)
    requires
        m <= n,
    ensures
        fib(m) <= fib(n),
    decreases n - m,
{
    if m < n {
        lemma_fib_mono(m, (n - 1) as nat);
        if n >= 2 {
            assert(fib(n) == fib((n - 1) as nat) + fib((n - 2) as nat));
        } else {
            assert(n == 1 && m == 0);
        }
    }
}

proof fn lemma_all_lt_drop_first(s: Listing, b: i32)
    requires
        s.len() > 0,
        all_lt(s, b),
    ensures
        all_lt(s.drop_first(), b),
{
    assert forall|i: int| 0 <= i < s.drop_first().len() implies (#[trigger] s.drop_first()[i]).0
        < b by {
        assert(s.drop_first()[i] == s[i + 1]);
    }
}

/// Inserting a task whose rank is below a bound keeps every rank below it.
pub proof fn lemma_seq_insert_all_lt(s: Listing, t: Task, b: i32)
    requires
        all_lt(s, b),
        t.rank < b,
    ensures
        all_lt(seq_insert(s, t), b),
    decreases s.len(),
{
    if s.len() == 0 {
    } else if t.rank < s[0].0 {
    } else if t.rank == s[0].0 {
        lemma_all_lt_drop_first(s, b);
    } else {
        lemma_all_lt_drop_first(s, b);
        lemma_seq_insert_all_lt(s.drop_first(), t, b);
    }
}

proof fn lemma_all_gt_drop_first(s: Listing, b: i32)
    requires
        s.len() > 0,
        all_gt(s, b),
    ensures
        all_gt(s.drop_first(), b),
{
    assert forall|i: int| 0 <= i < s.drop_first().len() implies (#[trigger] s.drop_first()[i]).0
        > b by {
        assert(s.drop_first()[i] == s[i + 1]);
    }
}

/// Inserting a task whose rank is above a bound keeps every rank above it.
pub proof fn lemma_seq_insert_all_gt(s: Listing, t: Task, b: i32)
    requires
        all_gt(s, b),
        t.rank > b,
    ensures
        all_gt(seq_insert(s, t), b),
    decreases s.len(),
{
    if s.len() == 0 {
    } else if t.rank < s[0].0 {
    } else if t.rank == s[0].0 {
        lemma_all_gt_drop_first(s, b);
    } else {
        lemma_all_gt_drop_first(s, b);
        lemma_seq_insert_all_gt(s.drop_first(), t, b);
    }
}

/// An insertion below a pivot entry happens entirely in the part to its left.
pub proof fn lemma_seq_insert_split_lt(l: Listing, m: (i32, Seq<Task>), r: Listing, t: Task)
    requires
        t.rank < m.0,
        all_lt(l, m.0),
    ensures
        seq_insert(l + seq![m] + r, t) == seq_insert(l, t) + seq![m] + r,
    decreases l.len(),
{
    let s = l + seq![m] + r;
    if l.len() == 0 {
        assert(s[0] == m);
        assert(seq_insert(s, t) =~= seq_insert(l, t) + seq![m] + r);
    } else {
        assert(s[0] == l[0]);
        assert(s.drop_first() =~= l.drop_first() + seq![m] + r);
        if t.rank < l[0].0 {
            assert(seq_insert(s, t) =~= seq_insert(l, t) + seq![m] + r);
        } else if t.rank == l[0].0 {
            assert(seq_insert(s, t) =~= seq_insert(l, t) + seq![m] + r);
        } else {
            lemma_all_lt_drop_first(l, m.0);
            lemma_seq_insert_split_lt(l.drop_first(), m, r, t);
            assert(seq_insert(s, t) =~= seq_insert(l, t) + seq![m] + r);
        }
    }
}

/// An insertion above a pivot entry happens entirely in the part to its right.
pub proof fn lemma_seq_insert_split_gt(l: Listing, m: (i32, Seq<Task>), r: Listing, t: Task)
    requires
        t.rank > m.0,
        all_lt(l, m.0),
    ensures
        seq_insert(l + seq![m] + r, t) == l + seq![m] + seq_insert(r, t),
    decreases l.len(),
{
    let s = l + seq![m] + r;
    if l.len() == 0 {
        assert(s[0] == m);
        assert(s.drop_first() =~= r);
        assert(seq_insert(s, t) =~= l + seq![m] + seq_insert(r, t));
    } else {
        assert(s[0] == l[0]);
        assert(t.rank > l[0].0);
        assert(s.drop_first() =~= l.drop_first() + seq![m] + r);
        lemma_all_lt_drop_first(l, m.0);
        lemma_seq_insert_split_gt(l.drop_first(), m, r, t);
        assert(seq_insert(s, t) =~= l + seq![m] + seq_insert(r, t));
    }
}

/// An insertion at the pivot's own rank appends to the pivot's chain.
pub proof fn lemma_seq_insert_split_eq(l: Listing, m: (i32, Seq<Task>), r: Listing, t: Task)
    requires
        t.rank == m.0,
        all_lt(l, m.0),
    ensures
        seq_insert(l + seq![m] + r, t) == l + seq![(m.0, m.1.push(t))] + r,
    decreases l.len(),
{
    let s = l + seq![m] + r;
    if l.len() == 0 {
        assert(s[0] == m);
        assert(s.drop_first() =~= r);
        assert(seq_insert(s, t) =~= l + seq![(m.0, m.1.push(t))] + r);
    } else {
        assert(s[0] == l[0]);
        assert(t.rank > l[0].0);
        assert(s.drop_first() =~= l.drop_first() + seq![m] + r);
        lemma_all_lt_drop_first(l, m.0);
        lemma_seq_insert_split_eq(l.drop_first(), m, r, t);
        assert(seq_insert(s, t) =~= l + seq![(m.0, m.1.push(t))] + r);
    }
}

/// Looking a rank up in a listing split around a pivot: below the pivot only
/// the left part matters, above it only the right part, at it the pivot.
pub proof fn lemma_chain_of_split(l: Listing, m: (i32, Seq<Task>), r: Listing, rank: i32)
    requires
        all_lt(l, m.0),
        all_gt(r, m.0),
    ensures
        chain_of(l + seq![m] + r, rank) == if rank < m.0 {
            chain_of(l, rank)
        } else if rank == m.0 {
            m.1
        } else {
            chain_of(r, rank)
        },
    decreases l.len(),
{
    let s = l + seq![m] + r;
    if l.len() == 0 {
        assert(s[0] == m);
        assert(s.drop_first() =~= r);
        if rank < m.0 {
            lemma_chain_of_absent(r, m.0, rank);
        }
    } else {
        assert(s[0] == l[0]);
        assert(s.drop_first() =~= l.drop_first() + seq![m] + r);
        lemma_all_lt_drop_first(l, m.0);
        lemma_chain_of_split(l.drop_first(), m, r, rank);
        if rank >= m.0 {
            assert(l[0].0 != rank);
        }
    }
}

/// A rank below every rank of a listing is absent from it.
pub proof fn lemma_chain_of_absent(s: Listing, b: i32, rank: i32)
    requires
        all_gt(s, b),
        rank <= b,
    ensures
        chain_of(s, rank) == Seq::<Task>::empty(),
    decreases s.len(),
{
    if s.len() > 0 {
        lemma_all_gt_drop_first(s, b);
        lemma_chain_of_absent(s.drop_first(), b, rank);
    }
}

/// Insertion preserves sortedness and entry well-formedness of the listing.
pub proof fn lemma_seq_insert_wf(s: Listing, t: Task)
    requires
        listing_wf(s),
    ensures
        listing_wf(seq_insert(s, t)),
    decreases s.len(),
{
    let out = seq_insert(s, t);
    if s.len() == 0 {
    } else if t.rank < s[0].0 {
        assert forall|i: int, j: int| 0 <= i < j < out.len() implies (#[trigger] out[i]).0 < (
        #[trigger] out[j]).0 by {
            if i > 0 {
                assert(out[i] == s[i - 1]);
                assert(out[j] == s[j - 1]);
            } else {
                assert(out[j] == s[j - 1]);
                if j - 1 > 0 {
                    assert(s[0].0 < s[j - 1].0);
                }
            }
        }
        assert forall|i: int| 0 <= i < out.len() implies entry_wf(#[trigger] out[i]) by {
            if i > 0 {
                assert(out[i] == s[i - 1]);
            }
        }
    } else if t.rank == s[0].0 {
        assert forall|i: int, j: int| 0 <= i < j < out.len() implies (#[trigger] out[i]).0 < (
        #[trigger] out[j]).0 by {
            assert(out[j] == s[j]);
            if i > 0 {
                assert(out[i] == s[i]);
            }
        }
        assert forall|i: int| 0 <= i < out.len() implies entry_wf(#[trigger] out[i]) by {
            if i > 0 {
                assert(out[i] == s[i]);
            } else {
                assert(entry_wf(s[0]));
                let e = (s[0].0, s[0].1.push(t));
                assert forall|j: int| 0 <= j < e.1.len() implies (#[trigger] e.1[j]).rank
                    == e.0 by {
                    if j < s[0].1.len() {
                        assert(e.1[j] == s[0].1[j]);
                    }
                }
            }
        }
    } else {
        assert forall|i: int, j: int| 0 <= i < j < s.drop_first().len() implies (
        #[trigger] s.drop_first()[i]).0 < (#[trigger] s.drop_first()[j]).0 by {
            assert(s.drop_first()[i] == s[i + 1]);
            assert(s.drop_first()[j] == s[j + 1]);
        }
        assert forall|i: int| 0 <= i < s.drop_first().len() implies entry_wf(
            #[trigger] s.drop_first()[i],
        ) by {
            assert(s.drop_first()[i] == s[i + 1]);
        }
        lemma_seq_insert_wf(s.drop_first(), t);
        let rest = seq_insert(s.drop_first(), t);
        assert(all_gt(s.drop_first(), s[0].0)) by {
            assert forall|i: int| 0 <= i < s.drop_first().len() implies (
            #[trigger] s.drop_first()[i]).0 > s[0].0 by {
                assert(s.drop_first()[i] == s[i + 1]);
            }
        }
        lemma_seq_insert_all_gt(s.drop_first(), t, s[0].0);
        assert forall|i: int, j: int| 0 <= i < j < out.len() implies (#[trigger] out[i]).0 < (
        #[trigger] out[j]).0 by {
            if i > 0 {
                assert(out[i] == rest[i - 1]);
                assert(out[j] == rest[j - 1]);
            } else {
                assert(out[0] == s[0]);
                assert(out[j] == rest[j - 1]);
                assert(rest[j - 1].0 > s[0].0);
            }
        }
        assert forall|i: int| 0 <= i < out.len() implies entry_wf(#[trigger] out[i]) by {
            if i > 0 {
                assert(out[i] == rest[i - 1]);
            } else {
                assert(out[0] == s[0]);
            }
        }
    }
}

/// What insertion does to each rank's chain: the inserted task's own rank gains
/// it at the tail, every other rank's chain is untouched.
pub proof fn lemma_chain_of_insert(s: Listing, t: Task, rank: i32)
    requires
        sorted(s),
    ensures
        chain_of(seq_insert(s, t), rank) == if rank == t.rank {
            chain_of(s, rank).push(t)
        } else {
            chain_of(s, rank)
        },
    decreases s.len(),
{
    let out = seq_insert(s, t);
    if s.len() == 0 {
        assert(out =~= seq![(t.rank, seq![t])]);
        if rank == t.rank {
            assert(chain_of(out, rank) == seq![t]);
            assert(chain_of(s, rank).push(t) =~= seq![t]);
        } else {
            assert(out.drop_first() =~= Seq::<(i32, Seq<Task>)>::empty());
            assert(chain_of(Seq::<(i32, Seq<Task>)>::empty(), rank) == Seq::<Task>::empty());
            assert(chain_of(out, rank) == Seq::<Task>::empty());
        }
    } else {
        assert(all_gt(s.drop_first(), s[0].0)) by {
            assert forall|i: int| 0 <= i < s.drop_first().len() implies (
            #[trigger] s.drop_first()[i]).0 > s[0].0 by {
                assert(s.drop_first()[i] == s[i + 1]);
            }
        }
        assert(sorted(s.drop_first())) by {
            assert forall|i: int, j: int| 0 <= i < j < s.drop_first().len() implies (
            #[trigger] s.drop_first()[i]).0 < (#[trigger] s.drop_first()[j]).0 by {
                assert(s.drop_first()[i] == s[i + 1]);
                assert(s.drop_first()[j] == s[j + 1]);
            }
        }
        if t.rank < s[0].0 {
            assert(out[0] == (t.rank, seq![t]));
            assert(out.drop_first() =~= s);
            if rank == t.rank {
                lemma_chain_of_absent(s.drop_first(), s[0].0, rank);
                assert(chain_of(s, rank) =~= Seq::<Task>::empty());
                assert(chain_of(out, rank) =~= chain_of(s, rank).push(t));
            }
        } else if t.rank == s[0].0 {
            assert(out[0] == (s[0].0, s[0].1.push(t)));
            assert(out.drop_first() =~= s.drop_first());
        } else {
            assert(out[0] == s[0]);
            assert(out.drop_first() =~= seq_insert(s.drop_first(), t));
            lemma_chain_of_insert(s.drop_first(), t, rank);
        }
    }
}

/// A listing split around a pivot is well-formed when its parts are and the
/// pivot's rank separates them.
pub proof fn lemma_listing_wf_concat(l: Listing, m: (i32, Seq<Task>), r: Listing)
    requires
        listing_wf(l),
        listing_wf(r),
        entry_wf(m),
        all_lt(l, m.0),
        all_gt(r, m.0),
    ensures
        listing_wf(l + seq![m] + r),
{
    let s = l + seq![m] + r;
    assert forall|i: int, j: int| 0 <= i < j < s.len() implies (#[trigger] s[i]).0 < (
    #[trigger] s[j]).0 by {
        if j < l.len() {
            assert(s[i] == l[i] && s[j] == l[j]);
        } else if j == l.len() {
            assert(s[i] == l[i] && s[j] == m);
        } else {
            assert(s[j] == r[j - l.len() - 1]);
            if i < l.len() {
                assert(s[i] == l[i]);
            } else if i == l.len() {
                assert(s[i] == m);
            } else {
                assert(s[i] == r[i - l.len() - 1]);
            }
        }
    }
    assert forall|i: int| 0 <= i < s.len() implies entry_wf(#[trigger] s[i]) by {
        if i < l.len() {
            assert(s[i] == l[i]);
        } else if i == l.len() {
            assert(s[i] == m);
        } else {
            assert(s[i] == r[i - l.len() - 1]);
        }
    }
}

/// Conversely, sortedness of a split listing bounds and sorts its parts.
pub proof fn lemma_sorted_parts(l: Listing, m: (i32, Seq<Task>), r: Listing)
    requires
        sorted(l + seq![m] + r),
    ensures
        sorted(l),
        sorted(r),
        all_lt(l, m.0),
        all_gt(r, m.0),
{
    let s = l + seq![m] + r;
    assert forall|i: int, j: int| 0 <= i < j < l.len() implies (#[trigger] l[i]).0 < (
    #[trigger] l[j]).0 by {
        assert(s[i] == l[i] && s[j] == l[j]);
    }
    assert forall|i: int, j: int| 0 <= i < j < r.len() implies (#[trigger] r[i]).0 < (
    #[trigger] r[j]).0 by {
        assert(s[l.len() + 1 + i] == r[i] && s[l.len() + 1 + j] == r[j]);
    }
    assert forall|i: int| 0 <= i < l.len() implies (#[trigger] l[i]).0 < m.0 by {
        assert(s[i] == l[i] && s[l.len() as int] == m);
    }
    assert forall|i: int| 0 <= i < r.len() implies (#[trigger] r[i]).0 > m.0 by {
        assert(s[l.len() + 1 + i] == r[i] && s[l.len() as int] == m);
    }
}

/// Inserting one more task at the end of a batch is one more insertion.
pub proof fn lemma_insert_all_snoc(s: Listing, ts: Seq<Task>, t: Task)
    ensures
        insert_all(s, ts.push(t)) == seq_insert(insert_all(s, ts), t),
    decreases ts.len(),
{
    let snoc = ts.push(t);
    if ts.len() == 0 {
        assert(snoc.first() == t);
        assert(snoc.drop_first() =~= Seq::<Task>::empty());
        assert(insert_all(seq_insert(s, t), Seq::<Task>::empty()) == seq_insert(s, t));
        assert(insert_all(s, snoc) == insert_all(seq_insert(s, t), snoc.drop_first()));
        assert(insert_all(s, ts) == s);
    } else {
        assert(snoc.first() == ts.first());
        assert(snoc.drop_first() =~= ts.drop_first().push(t));
        lemma_insert_all_snoc(seq_insert(s, ts.first()), ts.drop_first(), t);
        assert(insert_all(s, snoc) == insert_all(seq_insert(s, ts.first()), snoc.drop_first()));
        assert(insert_all(s, ts) == insert_all(seq_insert(s, ts.first()), ts.drop_first()));
    }
}

} // verus!
