//! Downward propagation of one argument's resolved values along the active
//! subcommand chain, without overwriting values a level supplied itself.

use vstd::prelude::*;

use crate::matched::Record;
use crate::matches::Level;

verus! {

/// How one propagation step fills the records of a child level from the
/// parent's record for `id`:
/// - no record in the child: create one that copies the parent's values,
///   with the parent's occurrence count advanced by one step;
/// - a record with no values: copy the parent's values in, keeping the
///   child's occurrence count;
/// - a record with values: leave it alone, the local values win.
pub open spec fn child_filled(
    child: Map<Seq<char>, Record>,
    parent: Record,
    id: Seq<char>,
) -> Map<Seq<char>, Record> {
    if !child.contains_key(id) {
        child.insert(id, Record { occurs: parent.occurs + 1, vals: parent.vals })
    } else if child[id].vals.len() == 0 {
        child.insert(id, Record { occurs: child[id].occurs, vals: parent.vals })
    } else {
        child
    }
}

/// One whole propagation pass for `id` over a chain of levels: at each level
/// that holds a record for `id`, fill the level below as [`child_filled`]
/// says, then continue from that level with its (possibly updated) record.
/// A level without a record for `id` stops the pass.
pub open spec fn spec_propagate(chain: Seq<Level>, id: Seq<char>) -> Seq<Level>
    decreases chain.len(),
{
    if chain.len() < 2 || !chain[0].records.contains_key(id) {
        chain
    } else {
        let filled = Level {
            records: child_filled(chain[1].records, chain[0].records[id], id),
            usage: chain[1].usage,
            sub_name: chain[1].sub_name,
        };
        seq![chain[0]] + spec_propagate(seq![filled] + chain.skip(2), id)
    }
}

/// The machine-limit side condition of a propagation pass: wherever the pass
/// creates a record in a child level, the occurrence count it advances must
/// still fit in a `u64`.
pub open spec fn prop_occurs_ok(chain: Seq<Level>, id: Seq<char>) -> bool
    decreases chain.len(),
{
    if chain.len() < 2 || !chain[0].records.contains_key(id) {
        true
    } else {
        let filled = Level {
            records: child_filled(chain[1].records, chain[0].records[id], id),
            usage: chain[1].usage,
            sub_name: chain[1].sub_name,
        };
        &&& (!chain[1].records.contains_key(id) ==> chain[0].records[id].occurs < u64::MAX)
        &&& prop_occurs_ok(seq![filled] + chain.skip(2), id)
    }
}

/// A propagation pass keeps the chain's length and never touches the level
/// it starts from.
pub proof fn lemma_propagate_frame(chain: Seq<Level>, id: Seq<char>)
    ensures
        spec_propagate(chain, id).len() == chain.len(),
        chain.len() > 0 ==> spec_propagate(chain, id)[0] == chain[0],
    decreases chain.len(),
{
    if chain.len() >= 2 && chain[0].records.contains_key(id) {
        let filled = Level {
            records: child_filled(chain[1].records, chain[0].records[id], id),
            usage: chain[1].usage,
            sub_name: chain[1].sub_name,
        };
        lemma_propagate_frame(seq![filled] + chain.skip(2), id);
    }
}

/// A child level that had no record for the argument ends the pass with a
/// record whose values are a copy of the parent's and whose occurrence count
/// is the parent's advanced by one step.
pub proof fn lemma_propagate_fills_missing_child(chain: Seq<Level>, id: Seq<char>)
    requires
        chain.len() >= 2,
        chain[0].records.contains_key(id),
        !chain[1].records.contains_key(id),
    ensures
        spec_propagate(chain, id)[1].records.contains_key(id),
        spec_propagate(chain, id)[1].records[id].vals == chain[0].records[id].vals,
        spec_propagate(chain, id)[1].records[id].occurs == chain[0].records[id].occurs + 1,
{
    let filled = Level {
        records: child_filled(chain[1].records, chain[0].records[id], id),
        usage: chain[1].usage,
        sub_name: chain[1].sub_name,
    };
    let tail = seq![filled] + chain.skip(2);
    lemma_propagate_frame(tail, id);
    assert(spec_propagate(chain, id)[1] == spec_propagate(tail, id)[0]);
}

/// A child level that already had values of its own for the argument is left
/// entirely unchanged by the pass: the local values win.
pub proof fn lemma_propagate_keeps_local_values(chain: Seq<Level>, id: Seq<char>)
    requires
        chain.len() >= 2,
        chain[1].records.contains_key(id),
        chain[1].records[id].vals.len() > 0,
    ensures
        spec_propagate(chain, id)[1] == chain[1],
{
    lemma_propagate_frame(chain, id);
    if chain[0].records.contains_key(id) {
        let filled = Level {
            records: child_filled(chain[1].records, chain[0].records[id], id),
            usage: chain[1].usage,
            sub_name: chain[1].sub_name,
        };
        assert(filled.records == chain[1].records);
        assert(filled =~= chain[1]);
        let tail = seq![filled] + chain.skip(2);
        lemma_propagate_frame(tail, id);
        assert(spec_propagate(chain, id)[1] == spec_propagate(tail, id)[0]);
    }
}

/// When only the level the pass starts from holds a record for the argument,
/// one pass reaches every level below it: each ends up with a copy of the
/// starting level's values, and with its occurrence count advanced once per
/// level of depth.
pub proof fn lemma_propagate_whole_chain(chain: Seq<Level>, id: Seq<char>)
    requires
        chain.len() >= 1,
        chain[0].records.contains_key(id),
        forall|i: int| 1 <= i < chain.len() ==> !(#[trigger] chain[i]).records.contains_key(id),
    ensures
        forall|i: int| 1 <= i < chain.len() ==> (#[trigger] spec_propagate(chain, id)[i]).records.contains_key(id),
        forall|i: int| 1 <= i < chain.len() ==> (#[trigger] spec_propagate(chain, id)[i]).records[id].vals
            == chain[0].records[id].vals,
        forall|i: int| 1 <= i < chain.len() ==> (#[trigger] spec_propagate(chain, id)[i]).records[id].occurs
            == chain[0].records[id].occurs + i,
    decreases chain.len(),
{
    if chain.len() >= 2 {
        let r0 = chain[0].records[id];
        let filled = Level {
            records: child_filled(chain[1].records, r0, id),
            usage: chain[1].usage,
            sub_name: chain[1].sub_name,
        };
        let tail = seq![filled] + chain.skip(2);
        assert(filled.records.contains_key(id));
        assert(filled.records[id].vals == r0.vals);
        assert(filled.records[id].occurs == r0.occurs + 1);
        assert(forall|i: int| 1 <= i < tail.len() ==> !(#[trigger] tail[i]).records.contains_key(id));
        lemma_propagate_whole_chain(tail, id);
        let res = spec_propagate(chain, id);
        let tres = spec_propagate(tail, id);
        lemma_propagate_frame(tail, id);
        assert(res == seq![chain[0]] + tres);
        assert(forall|i: int| 1 <= i < chain.len() ==> #[trigger] res[i] == tres[i - 1]);
        assert(forall|i: int| 2 <= i < chain.len() ==> (#[trigger] res[i]).records[id].occurs
            == filled.records[id].occurs + (i - 1));
    }
}

/// Propagation is idempotent: running the same pass twice in sequence leaves
/// exactly the chain that one pass produces.
pub proof fn lemma_propagate_idempotent(chain: Seq<Level>, id: Seq<char>)
    ensures
        spec_propagate(spec_propagate(chain, id), id) == spec_propagate(chain, id),
    decreases chain.len(),
{
    if chain.len() < 2 || !chain[0].records.contains_key(id) {
    } else {
        let r0 = chain[0].records[id];
        let filled = Level {
            records: child_filled(chain[1].records, r0, id),
            usage: chain[1].usage,
            sub_name: chain[1].sub_name,
        };
        let tail = seq![filled] + chain.skip(2);
        let tres = spec_propagate(tail, id);
        let res = spec_propagate(chain, id);
        assert(res == seq![chain[0]] + tres);
        lemma_propagate_frame(tail, id);
        assert(tres.len() == chain.len() - 1);
        assert(res[0] == chain[0]);
        assert(res[1] == tres[0]);
        assert(tres[0] == filled);
        // The record the first pass leaves in the child never triggers a
        // change in the second pass: either its values are non-empty and the
        // local values win, or they equal the parent's (empty) values and
        // copying them in again reproduces the same record.
        assert(filled.records.contains_key(id));
        assert(filled.records[id].vals == r0.vals || filled.records[id].vals.len() > 0);
        let refilled = Level {
            records: child_filled(filled.records, r0, id),
            usage: filled.usage,
            sub_name: filled.sub_name,
        };
        if filled.records[id].vals.len() == 0 {
            assert(filled.records[id].vals == r0.vals);
            assert((Record { occurs: filled.records[id].occurs, vals: r0.vals })
                == filled.records[id]);
            assert(child_filled(filled.records, r0, id) =~= filled.records);
        }
        assert(refilled =~= filled);
        let res_tail = seq![res[1]] + res.skip(2);
        assert(res.skip(2) =~= tres.skip(1));
        assert(res_tail =~= tres);
        lemma_propagate_idempotent(tail, id);
        assert(spec_propagate(res, id) == seq![res[0]] + spec_propagate(res_tail, id));
        assert(spec_propagate(res, id) =~= res);
    }
}

} // verus!
