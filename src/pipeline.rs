use vstd::prelude::*;

use crate::config::PixelGrid;
use crate::fingerprint::{fingerprint_of, Fingerprint, Fingerprinter};

verus! {

/// One decoded and fingerprinted image.
#[derive(Clone, Debug)]
pub struct ImageRecord {
    pub path: String,
    pub width: u32,
    pub height: u32,
    pub fingerprint: Fingerprint,
}

/// The records of the items that decoded, in their order; an item that
/// failed to decode leaves no trace.
pub open spec fn kept(outcomes: Seq<Option<ImageRecord>>) -> Seq<ImageRecord>
    decreases outcomes.len(),
{
    if outcomes.len() == 0 {
        Seq::empty()
    } else {
        let rest = kept(outcomes.drop_last());
        match outcomes.last() {
            Some(r) => rest.push(r),
            None => rest,
        }
    }
}

impl Fingerprinter {
    /// The record of one item of a batch: `None` when the item failed to
    /// decode, else its path, dimensions and fingerprint.
    pub fn record_for(&self, path: String, decoded: Option<PixelGrid>) -> (r: Option<ImageRecord>)
        requires
            self.config().wf(),
            decoded matches Some(g) ==> g.wf(),
        ensures
            r is Some <==> decoded is Some,
            r matches Some(rec) ==> ({
                let g = decoded->Some_0;
                &&& rec.path == path
                &&& rec.width == g.width
                &&& rec.height == g.height
                &&& rec.fingerprint@ == fingerprint_of(self.config(), g)
            }),
    {
        match decoded {
            Some(grid) => {
                let fingerprint = self.fingerprint(&grid);
                Some(ImageRecord { path, width: grid.width, height: grid.height, fingerprint })
            },
            None => None,
        }
    }
}

/// Gathers the records of a batch, dropping the items that failed.
pub fn keep_decoded(outcomes: Vec<Option<ImageRecord>>) -> (r: Vec<ImageRecord>)
    ensures
        r@ == kept(outcomes@),
{
    let ghost all = outcomes@;
    let mut r: Vec<ImageRecord> = Vec::new();
    for item in it: outcomes.into_iter()
        invariant
            it.seq() == all,
            r@ == kept(all.take(it.index() as int)),
    {
        proof {
            let k = it.index() as int;
            assert(all.take(k + 1).drop_last() =~= all.take(k));
        }
        match item {
            Some(rec) => r.push(rec),
            None => {},
        }
    }
    proof {
        assert(all.take(all.len() as int) =~= all);
    }
    r
}

/// `kept` distributes over concatenation.
pub proof fn lemma_kept_append(a: Seq<Option<ImageRecord>>, b: Seq<Option<ImageRecord>>)
    ensures
        kept(a + b) == kept(a) + kept(b),
    decreases b.len(),
{
    if b.len() == 0 {
        assert(a + b =~= a);
        assert(kept(a) + kept(b) =~= kept(a));
    } else {
        lemma_kept_append(a, b.drop_last());
        assert((a + b).drop_last() =~= a + b.drop_last());
        match b.last() {
            Some(r) => {
                assert(kept(a) + kept(b) =~= (kept(a) + kept(b.drop_last())).push(r));
            },
            None => {},
        }
    }
}

/// A failed item never changes the records of the others: with item `i`
/// failing, the batch yields the records of the items before it followed
/// by those of the items after it, exactly as when it succeeds, less its
/// own record.
pub proof fn lemma_failure_isolated(outcomes: Seq<Option<ImageRecord>>, i: int)
    requires
        0 <= i < outcomes.len(),
    ensures
        kept(outcomes.update(i, None)) == kept(outcomes.take(i)) + kept(outcomes.skip(i + 1)),
        kept(outcomes) == kept(outcomes.take(i)) + kept(seq![outcomes[i]]) + kept(
            outcomes.skip(i + 1),
        ),
{
    let failed = outcomes.update(i, None);
    let before = outcomes.take(i);
    let after = outcomes.skip(i + 1);
    assert(failed =~= before + seq![None] + after);
    assert(outcomes =~= before + seq![outcomes[i]] + after);
    lemma_kept_append(before + seq![None], after);
    lemma_kept_append(before, seq![None]);
    lemma_kept_append(before + seq![outcomes[i]], after);
    lemma_kept_append(before, seq![outcomes[i]]);
    let none: Seq<Option<ImageRecord>> = seq![None];
    assert(none.drop_last() =~= Seq::<Option<ImageRecord>>::empty());
    assert(kept(none.drop_last()) =~= Seq::<ImageRecord>::empty());
    assert(kept(none) =~= Seq::<ImageRecord>::empty());
    assert(kept(before) + kept(none) =~= kept(before));
}

} // verus!
