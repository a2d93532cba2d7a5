use vstd::prelude::*;

use crate::model::chain_of;
use crate::model::insert_all;
use crate::model::lemma_chain_of_insert;
use crate::model::lemma_seq_insert_wf;
use crate::model::listing_wf;
use crate::model::seq_insert;
use crate::model::with_rank;
use crate::model::Listing;
use crate::task::Task;

verus! {

/// Tasks of one rank collide into a single node's chain in arrival order: on
/// a listing without that rank, two same-rank inserts make the chain
/// [t1, t2], and a third insert of that rank appends at the tail, preserving
/// the order of all three.
pub proof fn lemma_equal_rank_chain(s: Listing, t1: Task, t2: Task, t3: Task)
    requires
        listing_wf(s),
        chain_of(s, t1.rank).len() == 0,
        t2.rank == t1.rank,
        t3.rank == t1.rank,
    ensures
        chain_of(seq_insert(seq_insert(s, t1), t2), t1.rank) == seq![t1, t2],
        chain_of(seq_insert(seq_insert(seq_insert(s, t1), t2), t3), t1.rank) == seq![t1, t2, t3],
{
    let s1 = seq_insert(s, t1);
    let s2 = seq_insert(s1, t2);
    let s3 = seq_insert(s2, t3);
    lemma_chain_of_insert(s, t1, t1.rank);
    lemma_seq_insert_wf(s, t1);
    lemma_chain_of_insert(s1, t2, t1.rank);
    lemma_seq_insert_wf(s1, t2);
    lemma_chain_of_insert(s2, t3, t1.rank);
    assert(chain_of(s2, t1.rank) =~= seq![t1, t2]);
    assert(chain_of(s3, t1.rank) =~= seq![t1, t2, t3]);
}

/// Each rank's chain collects exactly the tasks inserted with that rank, in
/// their original order, regardless of the interleaving of other ranks
/// inserted before or after. Looking the rank up after the batch therefore
/// returns precisely those tasks.
pub proof fn lemma_chain_tracks_inserts(s: Listing, ts: Seq<Task>, r: i32)
    requires
        listing_wf(s),
    ensures
        chain_of(insert_all(s, ts), r) == chain_of(s, r) + with_rank(ts, r),
    decreases ts.len(),
{
    if ts.len() == 0 {
        assert(chain_of(s, r) + with_rank(ts, r) =~= chain_of(s, r));
    } else {
        let h = ts.first();
        let s1 = seq_insert(s, h);
        lemma_seq_insert_wf(s, h);
        lemma_chain_of_insert(s, h, r);
        lemma_chain_tracks_inserts(s1, ts.drop_first(), r);
        assert(chain_of(insert_all(s, ts), r) == chain_of(s1, r) + with_rank(
            ts.drop_first(),
            r,
        ));
        if h.rank == r {
            assert(chain_of(s, r).push(h) + with_rank(ts.drop_first(), r) =~= chain_of(s, r) + (
            seq![h] + with_rank(ts.drop_first(), r)));
        }
    }
}

/// Insertions at distinct ranks commute: the final listing does not depend on
/// the order in which tasks of different ranks arrive. Concurrent inserts of
/// disjoint rank ranges, serialized in any interleaving, therefore produce
/// the same content as a sequential run, with no node lost or duplicated.
pub proof fn lemma_insert_commutes(s: Listing, t1: Task, t2: Task)
    requires
        t1.rank != t2.rank,
    ensures
        seq_insert(seq_insert(s, t1), t2) == seq_insert(seq_insert(s, t2), t1),
    decreases s.len(),
{
    let e1 = (t1.rank, seq![t1]);
    let e2 = (t2.rank, seq![t2]);
    let a = seq_insert(s, t1);
    let b = seq_insert(s, t2);
    if s.len() == 0 {
        assert(a =~= seq![e1]);
        assert(b =~= seq![e2]);
        assert(a.drop_first() =~= Seq::<(i32, Seq<Task>)>::empty());
        assert(b.drop_first() =~= Seq::<(i32, Seq<Task>)>::empty());
        assert(seq_insert(a.drop_first(), t2) == seq![e2]);
        assert(seq_insert(b.drop_first(), t1) == seq![e1]);
        if t2.rank < t1.rank {
            assert(seq_insert(a, t2) =~= seq![e2] + seq![e1]);
            assert(seq_insert(b, t1) =~= seq![e2] + seq![e1]);
        } else {
            assert(seq_insert(a, t2) =~= seq![e1] + seq![e2]);
            assert(seq_insert(b, t1) =~= seq![e1] + seq![e2]);
        }
    } else {
        let m = s[0];
        let tail = s.drop_first();
        let m1 = (m.0, m.1.push(t1));
        let m2 = (m.0, m.1.push(t2));
        assert((seq![e1] + s)[0] == e1);
        assert((seq![e2] + s)[0] == e2);
        assert((seq![e1] + s).drop_first() =~= s);
        assert((seq![e2] + s).drop_first() =~= s);
        assert((seq![m1] + tail)[0] == m1);
        assert((seq![m2] + tail)[0] == m2);
        assert((seq![m1] + tail).drop_first() =~= tail);
        assert((seq![m2] + tail).drop_first() =~= tail);
        assert((seq![m] + seq_insert(tail, t1))[0] == m);
        assert((seq![m] + seq_insert(tail, t2))[0] == m);
        assert((seq![m] + seq_insert(tail, t1)).drop_first() =~= seq_insert(tail, t1));
        assert((seq![m] + seq_insert(tail, t2)).drop_first() =~= seq_insert(tail, t2));
        if t1.rank > m.0 && t2.rank > m.0 {
            lemma_insert_commutes(tail, t1, t2);
        }
        assert(seq_insert(a, t2) =~= seq_insert(b, t1));
    }
}

} // verus!
