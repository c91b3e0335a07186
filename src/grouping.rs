use vstd::prelude::*;

use crate::fingerprint::Fingerprint;
use crate::pipeline::ImageRecord;

verus! {

#[verifier::external_type_specification]
#[verifier::external_body]
#[verifier::reject_recursive_types(K)]
#[verifier::reject_recursive_types(V)]
#[verifier::reject_recursive_types(S)]
pub struct ExHashMap<K, V, S>(hashbrown::HashMap<K, V, S>);

#[verifier::external_type_specification]
#[verifier::external_body]
pub struct ExDefaultHashBuilder(hashbrown::hash_map::DefaultHashBuilder);

/// An index from fingerprint bits to positions in a list of groups.
pub type FpIndex = hashbrown::HashMap<Vec<bool>, usize>;

/// What an index from fingerprint bits to group positions holds.
pub uninterp spec fn index_entries(m: FpIndex) -> Map<Seq<bool>, usize>;

/// Relies on hashbrown's `HashMap::new`: a map with no entries.
#[verifier::external_body]
fn index_new() -> (r: FpIndex)
    ensures
        index_entries(r).dom().len() == 0 && index_entries(r).dom().finite(),
{
    hashbrown::HashMap::new()
}

/// Relies on hashbrown's `HashMap::get`: the value stored under a key equal
/// to `key` (keys compare as `Vec<bool>`, element by element), if any.
#[verifier::external_body]
fn index_get(m: &FpIndex, key: &Vec<bool>) -> (r: Option<usize>)
    ensures
        r == (if index_entries(*m).contains_key(key@) {
            Some(index_entries(*m)[key@])
        } else {
            None::<usize>
        }),
{
    m.get(key).copied()
}

/// Relies on hashbrown's `HashMap::insert`: afterwards `key` maps to
/// `value`, and every other entry is unchanged.
#[verifier::external_body]
fn index_insert(m: &mut FpIndex, key: Vec<bool>, value: usize)
    ensures
        index_entries(*final(m)) == index_entries(*old(m)).insert(key@, value),
{
    m.insert(key, value);
}

/// The paths of one dimension inside a collision group, in input order.
#[derive(Clone, Debug)]
pub struct DimensionBucket {
    pub width: u32,
    pub height: u32,
    pub paths: Vec<String>,
}

/// All images sharing one fingerprint, split by dimensions.
#[derive(Clone, Debug)]
pub struct CollisionGroup {
    pub fingerprint: Fingerprint,
    pub buckets: Vec<DimensionBucket>,
}

/// The paths of the records with fingerprint `fp` and dimensions `w` by
/// `h`, in input order.
pub open spec fn bucket_paths(recs: Seq<ImageRecord>, fp: Seq<bool>, w: u32, h: u32) -> Seq<String>
    decreases recs.len(),
{
    if recs.len() == 0 {
        Seq::empty()
    } else {
        let rest = bucket_paths(recs.drop_last(), fp, w, h);
        let r = recs.last();
        if r.fingerprint@ == fp && r.width == w && r.height == h {
            rest.push(r.path)
        } else {
            rest
        }
    }
}

/// How many records carry fingerprint `fp`, whatever their dimensions.
pub open spec fn fp_count(recs: Seq<ImageRecord>, fp: Seq<bool>) -> nat
    decreases recs.len(),
{
    if recs.len() == 0 {
        0
    } else {
        let rest = fp_count(recs.drop_last(), fp);
        if recs.last().fingerprint@ == fp {
            rest + 1
        } else {
            rest
        }
    }
}

/// Some bucket has dimensions `w` by `h`.
pub open spec fn has_bucket(buckets: Seq<DimensionBucket>, w: u32, h: u32) -> bool {
    exists|j: int| 0 <= j < buckets.len() && #[trigger] buckets[j].width == w && buckets[j].height == h
}

/// Among the records with fingerprint `f`, dimensions `w1` by `h1` occur
/// before any record of dimensions `w2` by `h2`.
pub open spec fn first_before(recs: Seq<ImageRecord>, f: Seq<bool>, w1: u32, h1: u32, w2: u32, h2: u32) -> bool {
    exists|n: int|
        0 <= n <= recs.len() && #[trigger] bucket_paths(recs.take(n), f, w1, h1).len() > 0
            && bucket_paths(recs.take(n), f, w2, h2).len() == 0
}

/// A group of fingerprint `fp` is exactly what the records say of it: one
/// bucket per dimensions that occur with `fp`, in the order in which they
/// first occur, each holding the paths of those records in input order.
pub open spec fn group_matches(g: CollisionGroup, recs: Seq<ImageRecord>) -> bool {
    let b = g.buckets@;
    &&& forall|j: int|
        0 <= j < b.len() ==> #[trigger] b[j].paths@ == bucket_paths(
            recs,
            g.fingerprint@,
            b[j].width,
            b[j].height,
        ) && b[j].paths@.len() > 0
    &&& forall|j: int, l: int|
        0 <= j < l < b.len() ==> !(#[trigger] b[j].width == #[trigger] b[l].width && b[j].height
            == b[l].height)
    &&& forall|k: int|
        0 <= k < recs.len() && #[trigger] recs[k].fingerprint@ == g.fingerprint@ ==> has_bucket(
            b,
            recs[k].width,
            recs[k].height,
        )
    &&& forall|j: int, l: int|
        0 <= j < l < b.len() ==> #[trigger] first_before(
            recs,
            g.fingerprint@,
            b[j].width,
            b[j].height,
            b[l].width,
            b[l].height,
        )
}

/// The report on a set of records: each group is exactly what the records
/// say of its fingerprint, no fingerprint is reported twice, a fingerprint
/// is reported when more than one record carries it and only then.
pub open spec fn is_report(groups: Seq<CollisionGroup>, recs: Seq<ImageRecord>) -> bool {
    &&& forall|i: int|
        0 <= i < groups.len() ==> group_matches(#[trigger] groups[i], recs) && fp_count(
            recs,
            groups[i].fingerprint@,
        ) > 1
    &&& forall|i: int, l: int|
        0 <= i < l < groups.len() ==> #[trigger] groups[i].fingerprint@
            != #[trigger] groups[l].fingerprint@
    &&& forall|k: int|
        0 <= k < recs.len() && fp_count(recs, #[trigger] recs[k].fingerprint@) > 1 ==> exists|
            i: int,
        |
            0 <= i < groups.len() && #[trigger] groups[i].fingerprint@ == recs[k].fingerprint@
}

/// `new` is `old` with `path` added under dimensions `w` by `h`: appended to
/// the bucket of those dimensions, or in a new last bucket when none has them.
pub open spec fn path_added(
    old: Seq<DimensionBucket>,
    new: Seq<DimensionBucket>,
    w: u32,
    h: u32,
    path: String,
) -> bool {
    &&& has_bucket(old, w, h) ==> new.len() == old.len()
    &&& !has_bucket(old, w, h) ==> new.len() == old.len() + 1 && new[old.len() as int].width == w
        && new[old.len() as int].height == h && new[old.len() as int].paths@ == seq![path]
    &&& forall|j: int|
        0 <= j < old.len() ==> #[trigger] new[j].width == old[j].width && new[j].height
            == old[j].height && new[j].paths@ == if old[j].width == w && old[j].height == h {
            old[j].paths@.push(path)
        } else {
            old[j].paths@
        }
}

proof fn lemma_step(p: Seq<ImageRecord>, x: ImageRecord)
    ensures
        forall|f: Seq<bool>|
            #[trigger] fp_count(p.push(x), f) == fp_count(p, f) + if x.fingerprint@ == f {
                1nat
            } else {
                0nat
            },
        forall|f: Seq<bool>, w: u32, h: u32|
            #[trigger] bucket_paths(p.push(x), f, w, h) == if x.fingerprint@ == f && x.width == w
                && x.height == h {
                bucket_paths(p, f, w, h).push(x.path)
            } else {
                bucket_paths(p, f, w, h)
            },
{
    assert(p.push(x).drop_last() =~= p);
}

proof fn lemma_count_bounded(p: Seq<ImageRecord>, f: Seq<bool>)
    ensures
        fp_count(p, f) <= p.len(),
    decreases p.len(),
{
    if p.len() > 0 {
        lemma_count_bounded(p.drop_last(), f);
    }
}

/// A non-empty bucket comes from some record.
proof fn lemma_bucket_witness(p: Seq<ImageRecord>, f: Seq<bool>, w: u32, h: u32)
    requires
        bucket_paths(p, f, w, h).len() > 0,
    ensures
        exists|k: int|
            0 <= k < p.len() && #[trigger] p[k].fingerprint@ == f && p[k].width == w && p[k].height
                == h,
    decreases p.len(),
{
    let q = p.drop_last();
    let x = p.last();
    if x.fingerprint@ == f && x.width == w && x.height == h {
        assert(p[p.len() - 1].fingerprint@ == f);
    } else {
        lemma_bucket_witness(q, f, w, h);
        let k = choose|k: int|
            0 <= k < q.len() && #[trigger] q[k].fingerprint@ == f && q[k].width == w && q[k].height
                == h;
        assert(p[k] == q[k]);
    }
}

/// A fingerprint that no record carries has only empty buckets.
proof fn lemma_absent_bucket_empty(p: Seq<ImageRecord>, f: Seq<bool>, w: u32, h: u32)
    requires
        fp_count(p, f) == 0,
    ensures
        bucket_paths(p, f, w, h).len() == 0,
    decreases p.len(),
{
    if p.len() > 0 {
        lemma_absent_bucket_empty(p.drop_last(), f, w, h);
    }
}

proof fn lemma_first_before_kept(
    p: Seq<ImageRecord>,
    x: ImageRecord,
    f: Seq<bool>,
    w1: u32,
    h1: u32,
    w2: u32,
    h2: u32,
)
    requires
        first_before(p, f, w1, h1, w2, h2),
    ensures
        first_before(p.push(x), f, w1, h1, w2, h2),
{
    let n = choose|n: int|
        0 <= n <= p.len() && #[trigger] bucket_paths(p.take(n), f, w1, h1).len() > 0
            && bucket_paths(p.take(n), f, w2, h2).len() == 0;
    assert(p.push(x).take(n) =~= p.take(n));
    assert(bucket_paths(p.push(x).take(n), f, w1, h1).len() > 0);
}

proof fn lemma_group_untouched(g: CollisionGroup, p: Seq<ImageRecord>, x: ImageRecord)
    requires
        group_matches(g, p),
        x.fingerprint@ != g.fingerprint@,
    ensures
        group_matches(g, p.push(x)),
{
    lemma_step(p, x);
    let q = p.push(x);
    let b = g.buckets@;
    assert forall|k: int|
        0 <= k < q.len() && #[trigger] q[k].fingerprint@ == g.fingerprint@ implies has_bucket(
        b,
        q[k].width,
        q[k].height,
    ) by {
        assert(k < p.len());
        assert(q[k] == p[k]);
        assert(p[k].fingerprint@ == g.fingerprint@);
    }
    assert forall|j: int, l: int|
        0 <= j < l < b.len() implies #[trigger] first_before(
        q,
        g.fingerprint@,
        b[j].width,
        b[j].height,
        b[l].width,
        b[l].height,
    ) by {
        lemma_first_before_kept(
            p,
            x,
            g.fingerprint@,
            b[j].width,
            b[j].height,
            b[l].width,
            b[l].height,
        );
    }
}

proof fn lemma_group_new(g: CollisionGroup, p: Seq<ImageRecord>, x: ImageRecord)
    requires
        fp_count(p, x.fingerprint@) == 0,
        g.fingerprint@ == x.fingerprint@,
        g.buckets@.len() == 1,
        g.buckets@[0].width == x.width,
        g.buckets@[0].height == x.height,
        g.buckets@[0].paths@ == seq![x.path],
    ensures
        group_matches(g, p.push(x)),
{
    lemma_step(p, x);
    lemma_absent_bucket_empty(p, x.fingerprint@, x.width, x.height);
    let q = p.push(x);
    let b = g.buckets@;
    assert(bucket_paths(p, x.fingerprint@, x.width, x.height) =~= Seq::<String>::empty());
    assert(b[0].paths@ =~= bucket_paths(q, g.fingerprint@, b[0].width, b[0].height));
    assert forall|k: int|
        0 <= k < q.len() && #[trigger] q[k].fingerprint@ == g.fingerprint@ implies has_bucket(
        b,
        q[k].width,
        q[k].height,
    ) by {
        if k < p.len() {
            assert(q[k] == p[k]);
            assert(bucket_paths(p, g.fingerprint@, q[k].width, q[k].height).len() == 0) by {
                lemma_absent_bucket_empty(p, g.fingerprint@, q[k].width, q[k].height);
            }
            lemma_count_positive(p, k);
        } else {
            assert(b[0].width == q[k].width);
        }
    }
}

proof fn lemma_count_positive(p: Seq<ImageRecord>, k: int)
    requires
        0 <= k < p.len(),
    ensures
        fp_count(p, p[k].fingerprint@) > 0,
    decreases p.len(),
{
    let q = p.drop_last();
    if k < q.len() {
        lemma_count_positive(q, k);
        assert(q[k] == p[k]);
    }
}

proof fn lemma_group_extended(
    g: CollisionGroup,
    g2: CollisionGroup,
    p: Seq<ImageRecord>,
    x: ImageRecord,
)
    requires
        group_matches(g, p),
        x.fingerprint@ == g.fingerprint@,
        g2.fingerprint@ == g.fingerprint@,
        path_added(g.buckets@, g2.buckets@, x.width, x.height, x.path),
    ensures
        group_matches(g2, p.push(x)),
{
    lemma_step(p, x);
    let q = p.push(x);
    let f = g.fingerprint@;
    let b = g.buckets@;
    let b2 = g2.buckets@;
    if !has_bucket(b, x.width, x.height) {
        assert(bucket_paths(p, f, x.width, x.height).len() == 0) by {
            if bucket_paths(p, f, x.width, x.height).len() > 0 {
                lemma_bucket_witness(p, f, x.width, x.height);
            }
        }
        assert(b2[b.len() as int].paths@ =~= bucket_paths(q, f, x.width, x.height));
    }
    assert forall|j: int|
        0 <= j < b2.len() implies #[trigger] b2[j].paths@ == bucket_paths(
        q,
        f,
        b2[j].width,
        b2[j].height,
    ) && b2[j].paths@.len() > 0 by {
        if j < b.len() {
            assert(b2[j].width == b[j].width);
            assert(b[j].paths@ == bucket_paths(p, f, b[j].width, b[j].height));
        }
    }
    assert forall|j: int, l: int|
        0 <= j < l < b2.len() implies !(#[trigger] b2[j].width == #[trigger] b2[l].width
        && b2[j].height == b2[l].height) by {
        if l == b.len() {
            if b2[j].width == b2[l].width && b2[j].height == b2[l].height {
                assert(b[j].width == x.width && b[j].height == x.height);
            }
        } else {
            assert(b2[j].width == b[j].width && b2[l].width == b[l].width);
        }
    }
    assert forall|k: int|
        0 <= k < q.len() && #[trigger] q[k].fingerprint@ == f implies has_bucket(
        b2,
        q[k].width,
        q[k].height,
    ) by {
        if k < p.len() {
            assert(q[k] == p[k]);
            assert(p[k].fingerprint@ == f);
            assert(has_bucket(b, p[k].width, p[k].height));
            let j = choose|j: int|
                0 <= j < b.len() && #[trigger] b[j].width == p[k].width && b[j].height
                    == p[k].height;
            assert(b2[j].width == b[j].width);
        } else if has_bucket(b, x.width, x.height) {
            let j = choose|j: int|
                0 <= j < b.len() && #[trigger] b[j].width == x.width && b[j].height == x.height;
            assert(b2[j].width == b[j].width);
        } else {
            assert(b2[b.len() as int].width == x.width);
        }
    }
    assert forall|j: int, l: int|
        0 <= j < l < b2.len() implies #[trigger] first_before(
        q,
        f,
        b2[j].width,
        b2[j].height,
        b2[l].width,
        b2[l].height,
    ) by {
        assert(b2[j].width == b[j].width);
        if l < b.len() {
            assert(b2[l].width == b[l].width);
            lemma_first_before_kept(p, x, f, b[j].width, b[j].height, b[l].width, b[l].height);
        } else {
            assert(bucket_paths(p, f, x.width, x.height).len() == 0) by {
                if bucket_paths(p, f, x.width, x.height).len() > 0 {
                    lemma_bucket_witness(p, f, x.width, x.height);
                }
            }
            assert(q.take(p.len() as int) =~= p);
            assert(b[j].paths@ == bucket_paths(p, f, b[j].width, b[j].height));
            assert(bucket_paths(q.take(p.len() as int), f, b2[j].width, b2[j].height).len() > 0);
        }
    }
}

/// Adds a path under the given dimensions, keeping buckets in the order in
/// which their dimensions first came.
fn add_path(buckets: &mut Vec<DimensionBucket>, width: u32, height: u32, path: String)
    requires
        forall|j: int, l: int|
            0 <= j < l < old(buckets)@.len() ==> !(#[trigger] old(buckets)@[j].width
                == #[trigger] old(buckets)@[l].width && old(buckets)@[j].height
                == old(buckets)@[l].height),
    ensures
        path_added(old(buckets)@, final(buckets)@, width, height, path),
{
    let ghost start = buckets@;
    let mut j: usize = 0;
    while j < buckets.len()
        invariant
            buckets@ == start,
            start == old(buckets)@,
            j <= buckets@.len(),
            forall|l: int|
                0 <= l < j ==> !(#[trigger] buckets@[l].width == width && buckets@[l].height
                    == height),
            forall|a: int, l: int|
                0 <= a < l < start.len() ==> !(#[trigger] start[a].width == #[trigger] start[l].width
                    && start[a].height == start[l].height),
        decreases buckets@.len() - j,
    {
        if buckets[j].width == width && buckets[j].height == height {
            buckets[j].paths.push(path);
            proof {
                assert(buckets@.len() == start.len());
                assert(buckets@[j as int].paths@ == start[j as int].paths@.push(path));
                assert(buckets@[j as int].width == start[j as int].width);
                assert(has_bucket(start, width, height)) by {
                    assert(start[j as int].width == width);
                }
                assert forall|l: int| 0 <= l < start.len() implies #[trigger] buckets@[l].width
                    == start[l].width && buckets@[l].height == start[l].height
                    && buckets@[l].paths@ == if start[l].width == width && start[l].height
                    == height {
                    start[l].paths@.push(path)
                } else {
                    start[l].paths@
                } by {
                    if l != j && start[l].width == width && start[l].height == height {
                        if l < j {
                        } else {
                            assert(start[j as int].width == start[l].width);
                        }
                    }
                }
                assert(path_added(start, buckets@, width, height, path));
            }
            return;
        }
        j = j + 1;
    }
    let ghost n = buckets@.len();
    let mut paths: Vec<String> = Vec::new();
    paths.push(path);
    buckets.push(DimensionBucket { width, height, paths });
    proof {
        assert(!has_bucket(start, width, height));
        assert(buckets@[n as int].paths@ =~= seq![path]);
    }
}

/// The accumulation over the first records: one group per fingerprint seen
/// so far, its count beside it, and the index from fingerprints to groups.
spec fn accumulated(
    groups: Seq<CollisionGroup>,
    counts: Seq<usize>,
    index: Map<Seq<bool>, usize>,
    p: Seq<ImageRecord>,
) -> bool {
    &&& groups.len() == counts.len()
    &&& forall|i: int, l: int|
        0 <= i < l < groups.len() ==> #[trigger] groups[i].fingerprint@
            != #[trigger] groups[l].fingerprint@
    &&& forall|i: int|
        0 <= i < groups.len() ==> counts[i] == fp_count(p, (#[trigger] groups[i]).fingerprint@)
            && group_matches(groups[i], p) && index.contains_key(groups[i].fingerprint@)
    &&& forall|f: Seq<bool>|
        #[trigger] index.contains_key(f) ==> index[f] < groups.len() && groups[index[f] as int].fingerprint@
            == f
    &&& forall|f: Seq<bool>| !(#[trigger] index.contains_key(f)) ==> fp_count(p, f) == 0
}

/// Groups records by fingerprint, and within a fingerprint by dimensions,
/// and reports the fingerprints that more than one record carries.
pub fn group_collisions(records: &Vec<ImageRecord>) -> (r: Vec<CollisionGroup>)
    ensures
        is_report(r@, records@),
{
    let ghost recs = records@;
    let mut index = index_new();
    let mut groups: Vec<CollisionGroup> = Vec::new();
    let mut counts: Vec<usize> = Vec::new();
    let mut n: usize = 0;
    proof {
        assert(recs.take(0) =~= Seq::<ImageRecord>::empty());
    }
    while n < records.len()
        invariant
            recs == records@,
            n <= recs.len(),
            accumulated(groups@, counts@, index_entries(index), recs.take(n as int)),
        decreases recs.len() - n,
    {
        let rec = &records[n];
        let key = rec.fingerprint.to_key();
        let ghost p = recs.take(n as int);
        let ghost gs = groups@;
        proof {
            lemma_step(p, *rec);
            assert(recs.take(n + 1) =~= p.push(*rec));
        }
        match index_get(&index, &key) {
            Some(idx) => {
                proof {
                    lemma_count_bounded(p, rec.fingerprint@);
                }
                let c = counts[idx];
                counts.set(idx, c + 1);
                let width = rec.width;
                let height = rec.height;
                add_path(&mut groups[idx].buckets, width, height, rec.path.clone());
                proof {
                    let q = p.push(*rec);
                    lemma_group_extended(gs[idx as int], groups@[idx as int], p, *rec);
                    assert forall|i: int| 0 <= i < groups@.len() && i != idx implies groups@[i]
                        == gs[i] && group_matches(#[trigger] groups@[i], q) by {
                        lemma_group_untouched(gs[i], p, *rec);
                    }
                    assert(accumulated(groups@, counts@, index_entries(index), q));
                }
            },
            None => {
                let idx = groups.len();
                let mut paths: Vec<String> = Vec::new();
                paths.push(rec.path.clone());
                let mut buckets: Vec<DimensionBucket> = Vec::new();
                buckets.push(DimensionBucket { width: rec.width, height: rec.height, paths });
                let fingerprint = Fingerprint::from_bits(rec.fingerprint.to_key());
                groups.push(CollisionGroup { fingerprint, buckets });
                counts.push(1);
                index_insert(&mut index, key, idx);
                proof {
                    let q = p.push(*rec);
                    lemma_group_new(groups@[idx as int], p, *rec);
                    assert forall|i: int| 0 <= i < idx implies group_matches(
                        #[trigger] groups@[i],
                        q,
                    ) by {
                        lemma_group_untouched(gs[i], p, *rec);
                    }
                    assert(accumulated(groups@, counts@, index_entries(index), q));
                }
            },
        }
        n = n + 1;
    }
    proof {
        assert(recs.take(recs.len() as int) =~= recs);
    }
    let ghost gs = groups@;
    let ghost cs = counts@;
    let ghost ix = index_entries(index);
    let mut r: Vec<CollisionGroup> = Vec::new();
    let ghost mut picked: Seq<int> = Seq::empty();
    let mut pos: usize = 0;
    for g in it: groups.into_iter()
        invariant
            it.seq() == gs,
            pos == it.index(),
            counts@ == cs,
            cs.len() == gs.len(),
            accumulated(gs, cs, ix, recs),
            picked.len() == r@.len(),
            forall|a: int| 0 <= a < picked.len() ==> 0 <= #[trigger] picked[a] < it.index() && r@[a]
                == gs[picked[a]] && cs[picked[a]] > 1,
            forall|a: int, b: int| 0 <= a < b < picked.len() ==> #[trigger] picked[a] < #[trigger] picked[b],
            forall|i: int|
                0 <= i < it.index() && cs[i] > 1 ==> exists|a: int|
                    0 <= a < picked.len() && #[trigger] picked[a] == i,
    {
        let ghost before = picked;
        if counts[pos] > 1 {
            proof {
                picked = picked.push(pos as int);
            }
            r.push(g);
        }
        proof {
            assert forall|i: int| 0 <= i <= pos && cs[i] > 1 implies exists|a: int|
                0 <= a < picked.len() && #[trigger] picked[a] == i by {
                if i == pos {
                    assert(picked[picked.len() - 1] == i);
                } else {
                    let a = choose|a: int| 0 <= a < before.len() && #[trigger] before[a] == i;
                    assert(picked[a] == before[a]);
                }
            }
        }
        assert(pos < counts.len());
        pos = pos + 1;
    }
    proof {
        assert forall|k: int|
            0 <= k < recs.len() && fp_count(recs, #[trigger] recs[k].fingerprint@) > 1 implies exists|
            i: int,
        |
            0 <= i < r@.len() && #[trigger] r@[i].fingerprint@ == recs[k].fingerprint@ by {
            let f = recs[k].fingerprint@;
            if !ix.contains_key(f) {
                lemma_count_positive(recs, k);
            }
            let gi = ix[f] as int;
            let a = choose|a: int| 0 <= a < picked.len() && #[trigger] picked[a] == gi;
            assert(r@[a].fingerprint@ == f);
        }
        assert forall|i: int, l: int|
            0 <= i < l < r@.len() implies #[trigger] r@[i].fingerprint@
            != #[trigger] r@[l].fingerprint@ by {
            assert(picked[i] < picked[l]);
        }
        assert forall|i: int| 0 <= i < r@.len() implies group_matches(#[trigger] r@[i], recs) && fp_count(
            recs,
            r@[i].fingerprint@,
        ) > 1 by {
            assert(r@[i] == gs[picked[i]]);
        }
    }
    r
}

/// Removing one record takes away its own contribution and nothing else.
proof fn lemma_remove_record(s: Seq<ImageRecord>, j: int, f: Seq<bool>, w: u32, h: u32)
    requires
        0 <= j < s.len(),
    ensures
        fp_count(s, f) == fp_count(s.remove(j), f) + if s[j].fingerprint@ == f {
            1nat
        } else {
            0nat
        },
        bucket_paths(s, f, w, h).to_multiset() == if s[j].fingerprint@ == f && s[j].width == w
            && s[j].height == h {
            bucket_paths(s.remove(j), f, w, h).to_multiset().insert(s[j].path)
        } else {
            bucket_paths(s.remove(j), f, w, h).to_multiset()
        },
    decreases s.len(),
{
    broadcast use vstd::seq_lib::group_to_multiset_ensures;

    let q = s.drop_last();
    if j == s.len() - 1 {
        assert(s.remove(j) =~= q);
    } else {
        lemma_remove_record(q, j, f, w, h);
        assert(s.remove(j).drop_last() =~= q.remove(j));
        assert(s.remove(j).last() == s.last());
        assert(q[j] == s[j]);
        let x = s.last();
        if x.fingerprint@ == f && x.width == w && x.height == h {
            assert(bucket_paths(s.remove(j), f, w, h).to_multiset() =~= bucket_paths(
                q.remove(j),
                f,
                w,
                h,
            ).to_multiset().insert(x.path));
            if s[j].fingerprint@ == f && s[j].width == w && s[j].height == h {
                assert(bucket_paths(s, f, w, h).to_multiset() =~= bucket_paths(
                    s.remove(j),
                    f,
                    w,
                    h,
                ).to_multiset().insert(s[j].path));
            }
        }
    }
}

/// Grouping does not depend on the order of the records: any reordering
/// gives every fingerprint the same number of records, so the same
/// fingerprints are reported, and every bucket the same paths, up to order.
pub proof fn lemma_grouping_order_independent(a: Seq<ImageRecord>, b: Seq<ImageRecord>)
    requires
        a.to_multiset() == b.to_multiset(),
    ensures
        forall|f: Seq<bool>| #[trigger] fp_count(a, f) == fp_count(b, f),
        forall|f: Seq<bool>, w: u32, h: u32|
            #[trigger] bucket_paths(a, f, w, h).to_multiset() == bucket_paths(
                b,
                f,
                w,
                h,
            ).to_multiset(),
    decreases a.len(),
{
    broadcast use vstd::seq_lib::group_to_multiset_ensures;

    if a.len() == 0 {
        assert(b.to_multiset().len() == 0);
        assert(b =~= a);
    } else {
        let x = a.last();
        let a1 = a.drop_last();
        assert(a1.push(x) =~= a);
        assert(a.to_multiset().count(x) > 0);
        assert(b.contains(x));
        let j = choose|j: int| 0 <= j < b.len() && b[j] == x;
        let b1 = b.remove(j);
        assert(b1.to_multiset() =~= a1.to_multiset());
        lemma_grouping_order_independent(a1, b1);
        assert forall|f: Seq<bool>| #[trigger] fp_count(a, f) == fp_count(b, f) by {
            lemma_remove_record(b, j, f, 0, 0);
            assert(fp_count(a1, f) == fp_count(b1, f));
            assert(fp_count(a, f) == fp_count(a1, f) + if x.fingerprint@ == f {
                1nat
            } else {
                0nat
            });
        }
        assert forall|f: Seq<bool>, w: u32, h: u32|
            #[trigger] bucket_paths(a, f, w, h).to_multiset() == bucket_paths(
                b,
                f,
                w,
                h,
            ).to_multiset() by {
            lemma_remove_record(b, j, f, w, h);
            assert(bucket_paths(a1, f, w, h).to_multiset() == bucket_paths(b1, f, w, h).to_multiset());
        }
    }
}

/// A fingerprint with a positive count is carried by some record.
proof fn lemma_count_witness(p: Seq<ImageRecord>, f: Seq<bool>)
    requires
        fp_count(p, f) > 0,
    ensures
        exists|k: int| 0 <= k < p.len() && #[trigger] p[k].fingerprint@ == f,
    decreases p.len(),
{
    let q = p.drop_last();
    if p.last().fingerprint@ == f {
        assert(p[p.len() - 1].fingerprint@ == f);
    } else {
        lemma_count_witness(q, f);
        let k = choose|k: int| 0 <= k < q.len() && #[trigger] q[k].fingerprint@ == f;
        assert(p[k] == q[k]);
    }
}

/// Some bucket has the dimensions of `bucket` and its paths, up to order.
pub open spec fn has_bucket_with(buckets: Seq<DimensionBucket>, bucket: DimensionBucket) -> bool {
    exists|m: int|
        0 <= m < buckets.len() && #[trigger] buckets[m].width == bucket.width && buckets[m].height
            == bucket.height && buckets[m].paths@.to_multiset() == bucket.paths@.to_multiset()
}

/// Some group of `groups` has fingerprint `fp` and a bucket with the
/// dimensions of `bucket` and its paths, up to order.
pub open spec fn found_in(groups: Seq<CollisionGroup>, fp: Seq<bool>, bucket: DimensionBucket) -> bool {
    exists|l: int|
        0 <= l < groups.len() && #[trigger] groups[l].fingerprint@ == fp && has_bucket_with(
            groups[l].buckets@,
            bucket,
        )
}

/// Reports on two orderings of the same records agree: each group of one
/// has a group of the same fingerprint in the other, and each of its
/// buckets a bucket of the same dimensions there with the same paths, up
/// to order.
pub proof fn lemma_reports_agree(
    a: Seq<ImageRecord>,
    b: Seq<ImageRecord>,
    ra: Seq<CollisionGroup>,
    rb: Seq<CollisionGroup>,
)
    requires
        a.to_multiset() == b.to_multiset(),
        is_report(ra, a),
        is_report(rb, b),
    ensures
        forall|i: int, j: int|
            0 <= i < ra.len() && 0 <= j < ra[i].buckets@.len() ==> #[trigger] found_in(
                rb,
                ra[i].fingerprint@,
                ra[i].buckets@[j],
            ),
{
    lemma_grouping_order_independent(a, b);
    assert forall|i: int, j: int|
        0 <= i < ra.len() && 0 <= j < ra[i].buckets@.len() implies #[trigger] found_in(
        rb,
        ra[i].fingerprint@,
        ra[i].buckets@[j],
    ) by {
        let g = ra[i];
        let f = g.fingerprint@;
        let w = g.buckets@[j].width;
        let h = g.buckets@[j].height;
        assert(group_matches(g, a));
        assert(g.buckets@[j].paths@ == bucket_paths(a, f, w, h));
        assert(fp_count(a, f) == fp_count(b, f));
        lemma_count_witness(b, f);
        let k = choose|k: int| 0 <= k < b.len() && #[trigger] b[k].fingerprint@ == f;
        assert(fp_count(b, b[k].fingerprint@) > 1);
        let l = choose|l: int| 0 <= l < rb.len() && #[trigger] rb[l].fingerprint@ == b[k].fingerprint@;
        let g2 = rb[l];
        assert(group_matches(g2, b));
        assert(bucket_paths(a, f, w, h).to_multiset() == bucket_paths(b, f, w, h).to_multiset());
        assert(bucket_paths(a, f, w, h).len() > 0);
        assert(bucket_paths(b, f, w, h).len() > 0) by {
            broadcast use vstd::seq_lib::group_to_multiset_ensures;

            assert(bucket_paths(a, f, w, h).to_multiset().len() > 0);
        }
        lemma_bucket_witness(b, f, w, h);
        let k2 = choose|k2: int|
            0 <= k2 < b.len() && #[trigger] b[k2].fingerprint@ == f && b[k2].width == w && b[k2].height
                == h;
        assert(has_bucket(g2.buckets@, b[k2].width, b[k2].height));
        let m = choose|m: int|
            0 <= m < g2.buckets@.len() && #[trigger] g2.buckets@[m].width == w && g2.buckets@[m].height
                == h;
        assert(g2.buckets@[m].paths@ == bucket_paths(b, f, w, h));
        assert(has_bucket_with(g2.buckets@, g.buckets@[j]));
        assert(0 <= l < rb.len() && rb[l].fingerprint@ == ra[i].fingerprint@ && has_bucket_with(
            rb[l].buckets@,
            ra[i].buckets@[j],
        ));
    }
}

} // verus!
