//! Rewriting of message text: replacing emote byte ranges by encoded
//! payloads.
//!
//! Each emote occurrence names a half-open byte range `[start, end)` of
//! the original text. Replacements must be applied in descending order
//! of start offset: every splice then lies strictly after the ranges
//! still to be processed, so their offsets stay valid while the text
//! changes length. The rewriter flattens all (range, payload) pairs,
//! sorts them descending by start, and applies the splices in turn.

use vstd::prelude::*;
use vstd::seq_lib::lemma_multiset_commutative;

verus! {

/// A half-open byte range `[start, end)` over the original text.
#[derive(Clone, Copy, PartialEq, Eq, Structural, Debug)]
pub struct ByteRange {
    pub start: usize,
    pub end: usize,
}

/// One emote occurrence set: the encoded payload and every range of the
/// original text occupied by the emote's token. An empty payload removes
/// the token and substitutes nothing.
pub struct EmotePlacement {
    pub payload: Vec<u8>,
    pub ranges: Vec<ByteRange>,
}

/// One pending replacement: text bytes `[start, end)` give way to
/// `payload`.
pub struct Splice {
    pub start: usize,
    pub end: usize,
    pub payload: Vec<u8>,
}

/// The mathematical model of one splice.
pub ghost struct SpliceModel {
    pub start: int,
    pub end: int,
    pub payload: Seq<u8>,
}

/// Model of one executable splice.
pub open spec fn splice_model(s: Splice) -> SpliceModel {
    SpliceModel { start: s.start as int, end: s.end as int, payload: s.payload@ }
}

/// Models of a sequence of executable splices.
pub open spec fn models(ss: Seq<Splice>) -> Seq<SpliceModel> {
    ss.map_values(|s: Splice| splice_model(s))
}

/// Every contained splice is a well-formed, nonempty range within a text
/// of `t_len` bytes.
pub open spec fn splices_in_bounds(fl: Seq<SpliceModel>, t_len: int) -> bool {
    forall|x: SpliceModel| #[trigger] fl.contains(x) ==> 0 <= x.start < x.end <= t_len
}

/// Any two distinct contained splices cover non-overlapping ranges.
pub open spec fn splices_disjoint(fl: Seq<SpliceModel>) -> bool {
    forall|x: SpliceModel, y: SpliceModel|
        #[trigger] fl.contains(x) && #[trigger] fl.contains(y) && x != y ==> x.end <= y.start
            || y.end <= x.start
}

/// Weakly descending by start offset.
pub open spec fn desc_by_start(ss: Seq<SpliceModel>) -> bool {
    forall|i: int, j: int| 0 <= i < j < ss.len() ==> ss[j].start <= ss[i].start
}

/// Each splice lies within the text and strictly after every splice
/// that follows it: safe to apply front to back.
pub open spec fn applicable(t_len: int, ss: Seq<SpliceModel>) -> bool {
    &&& forall|i: int| 0 <= i < ss.len() ==> 0 <= (#[trigger] ss[i]).start < ss[i].end <= t_len
    &&& forall|i: int, j: int|
        0 <= i < j < ss.len() ==> (#[trigger] ss[j]).end <= (#[trigger] ss[i]).start
}

/// One splice applied to the text.
pub open spec fn apply_one(t: Seq<u8>, s: SpliceModel) -> Seq<u8> {
    t.subrange(0, s.start) + s.payload + t.subrange(s.end, t.len() as int)
}

/// The splices applied front to back; meaningful when `ss` is ordered
/// descending by start, so that applying the front splice leaves the
/// coordinates of the rest untouched.
pub open spec fn apply_desc(t: Seq<u8>, ss: Seq<SpliceModel>) -> Seq<u8>
    decreases ss.len(),
{
    if ss.len() == 0 {
        t
    } else {
        apply_desc(apply_one(t, ss[0]), ss.skip(1))
    }
}

/// `x` inserted before the first element whose start does not exceed
/// `x.start`.
pub open spec fn insert_desc(x: SpliceModel, ss: Seq<SpliceModel>) -> Seq<SpliceModel>
    decreases ss.len(),
{
    if ss.len() == 0 {
        seq![x]
    } else if x.start >= ss[0].start {
        seq![x] + ss
    } else {
        seq![ss[0]] + insert_desc(x, ss.skip(1))
    }
}

/// The splices ordered weakly descending by start offset: insertion
/// sort, the canonical order in which they are applied.
pub open spec fn sort_desc(ss: Seq<SpliceModel>) -> Seq<SpliceModel>
    decreases ss.len(),
{
    if ss.len() == 0 {
        Seq::empty()
    } else {
        insert_desc(ss[0], sort_desc(ss.skip(1)))
    }
}

/// Inserting adds one element to the multiset.
proof fn lemma_insert_desc_multiset(x: SpliceModel, ss: Seq<SpliceModel>)
    ensures
        insert_desc(x, ss).to_multiset() == ss.to_multiset().insert(x),
        insert_desc(x, ss).len() == ss.len() + 1,
    decreases ss.len(),
{
    broadcast use vstd::seq_lib::group_to_multiset_ensures;

    if ss.len() == 0 {
        assert(seq![x] =~= Seq::<SpliceModel>::empty().push(x));
        assert(seq![x].to_multiset() =~= ss.to_multiset().insert(x));
    } else if x.start >= ss[0].start {
        lemma_multiset_commutative(seq![x], ss);
        assert(seq![x] =~= Seq::<SpliceModel>::empty().push(x));
        assert((seq![x] + ss).to_multiset() =~= ss.to_multiset().insert(x));
    } else {
        lemma_insert_desc_multiset(x, ss.skip(1));
        lemma_multiset_commutative(seq![ss[0]], insert_desc(x, ss.skip(1)));
        lemma_multiset_commutative(seq![ss[0]], ss.skip(1));
        assert(seq![ss[0]] + ss.skip(1) =~= ss);
        assert((seq![ss[0]] + insert_desc(x, ss.skip(1))).to_multiset() =~= ss.to_multiset().insert(
            x,
        ));
    }
}

/// Inserting into a descending sequence keeps it descending.
proof fn lemma_insert_desc_sorted(x: SpliceModel, ss: Seq<SpliceModel>)
    requires
        desc_by_start(ss),
    ensures
        desc_by_start(insert_desc(x, ss)),
    decreases ss.len(),
{
    broadcast use vstd::seq_lib::group_to_multiset_ensures;

    if ss.len() == 0 {
    } else if x.start >= ss[0].start {
    } else {
        assert(desc_by_start(ss.skip(1)));
        lemma_insert_desc_sorted(x, ss.skip(1));
        lemma_insert_desc_multiset(x, ss.skip(1));
        let out = seq![ss[0]] + insert_desc(x, ss.skip(1));
        assert forall|i: int, j: int| 0 <= i < j < out.len() implies out[j].start
            <= out[i].start by {
            if i == 0 {
                let y = out[j];
                let tail = insert_desc(x, ss.skip(1));
                assert(tail.to_multiset().contains(y));
                assert(tail.to_multiset() == ss.skip(1).to_multiset().insert(x));
                if y == x {
                    assert(y.start <= ss[0].start);
                } else {
                    assert(ss.skip(1).to_multiset().contains(y));
                    assert(ss.skip(1).contains(y));
                    let w = choose|w: int| 0 <= w < ss.skip(1).len() && ss.skip(1)[w] == y;
                    assert(ss[w + 1] == y);
                    assert(y.start <= ss[0].start);
                }
            }
        }
    }
}

/// Sorting preserves the multiset of splices.
proof fn lemma_sort_desc_multiset(ss: Seq<SpliceModel>)
    ensures
        sort_desc(ss).to_multiset() == ss.to_multiset(),
        sort_desc(ss).len() == ss.len(),
    decreases ss.len(),
{
    broadcast use vstd::seq_lib::group_to_multiset_ensures;

    if ss.len() == 0 {
        assert(sort_desc(ss).to_multiset() =~= ss.to_multiset());
    } else {
        lemma_sort_desc_multiset(ss.skip(1));
        lemma_insert_desc_multiset(ss[0], sort_desc(ss.skip(1)));
        assert(ss.skip(1).push(ss[0]).to_multiset() == ss.skip(1).to_multiset().insert(ss[0]));
        lemma_multiset_commutative(seq![ss[0]], ss.skip(1));
        assert(seq![ss[0]] + ss.skip(1) =~= ss);
        assert(seq![ss[0]] =~= Seq::<SpliceModel>::empty().push(ss[0]));
        assert(sort_desc(ss).to_multiset() =~= ss.to_multiset());
    }
}

/// The sorted splices are ordered weakly descending by start.
proof fn lemma_sort_desc_sorted(ss: Seq<SpliceModel>)
    ensures
        desc_by_start(sort_desc(ss)),
    decreases ss.len(),
{
    if ss.len() == 0 {
    } else {
        lemma_sort_desc_sorted(ss.skip(1));
        lemma_insert_desc_sorted(ss[0], sort_desc(ss.skip(1)));
    }
}

/// `insert_desc` splits the sequence at the insertion point.
proof fn lemma_insert_desc_split(x: SpliceModel, ss: Seq<SpliceModel>, p: int)
    requires
        0 <= p <= ss.len(),
        forall|i: int| 0 <= i < p ==> x.start < (#[trigger] ss[i]).start,
        p < ss.len() ==> x.start >= ss[p].start,
    ensures
        insert_desc(x, ss) == ss.take(p) + seq![x] + ss.skip(p),
    decreases p,
{
    if p == 0 {
        assert(insert_desc(x, ss) =~= ss.take(0) + seq![x] + ss.skip(0));
    } else {
        lemma_insert_desc_split(x, ss.skip(1), p - 1);
        assert(insert_desc(x, ss) == seq![ss[0]] + insert_desc(x, ss.skip(1)));
        assert(ss.skip(1).take(p - 1) =~= ss.take(p).skip(1));
        assert(seq![ss[0]] + (ss.take(p).skip(1) + seq![x] + ss.skip(1).skip(p - 1)) =~= ss.take(p)
            + seq![x] + ss.skip(p));
    }
}

/// Inserts `x` into a vector of splices before the first splice whose
/// start does not exceed `x.start`.
fn insert_sorted_desc(x: Splice, v: Vec<Splice>) -> (out: Vec<Splice>)
    ensures
        models(out@) == insert_desc(splice_model(x), models(v@)),
{
    let ghost mx = splice_model(x);
    let ghost mv = models(v@);
    let mut p: usize = 0;
    while p < v.len() && x.start < v[p].start
        invariant
            p <= v@.len(),
            mv == models(v@),
            mx == splice_model(x),
            forall|i: int| 0 <= i < p ==> mx.start < (#[trigger] mv[i]).start,
        decreases v@.len() - p,
    {
        p += 1;
    }
    proof {
        lemma_insert_desc_split(mx, mv, p as int);
    }
    let mut out = v;
    out.insert(p, x);
    assert(models(out@) =~= mv.take(p as int) + seq![mx] + mv.skip(p as int));
    out
}

/// Sorts the splices weakly descending by start offset.
pub fn sort_splices_desc(v: Vec<Splice>) -> (out: Vec<Splice>)
    ensures
        models(out@) == sort_desc(models(v@)),
{
    let ghost mv = models(v@);
    let mut out: Vec<Splice> = Vec::new();
    let mut rest = v;
    let ghost v0 = rest@;
    assert(mv.skip(v0.len() as int) =~= Seq::<SpliceModel>::empty());
    while rest.len() > 0
        invariant
            rest@.len() <= v0.len(),
            rest@ == v0.take(rest@.len() as int),
            mv == models(v0),
            models(out@) == sort_desc(mv.skip(rest@.len() as int)),
        decreases rest@.len(),
    {
        let ghost n = rest@.len() as int;
        let x = rest.pop().unwrap();
        proof {
            assert(v0.take(n).last() == v0[n - 1]);
            assert(v0.take(n).drop_last() =~= v0.take(n - 1));
            assert(mv.skip(n - 1)[0] == splice_model(v0[n - 1]));
            assert(mv.skip(n - 1).skip(1) =~= mv.skip(n));
        }
        out = insert_sorted_desc(x, out);
    }
    assert(mv.skip(0) =~= mv);
    out
}

/// Replaces `t[start..end)` by `payload`.
fn splice_bytes(t: &Vec<u8>, start: usize, end: usize, payload: &Vec<u8>) -> (out: Vec<u8>)
    requires
        start <= end <= t@.len(),
    ensures
        out@ == t@.subrange(0, start as int) + payload@ + t@.subrange(end as int, t@.len() as int),
{
    let mut out: Vec<u8> = Vec::new();
    let mut i: usize = 0;
    while i < start
        invariant
            i <= start <= end <= t@.len(),
            out@ == t@.subrange(0, i as int),
        decreases start - i,
    {
        out.push(t[i]);
        assert(out@ =~= t@.subrange(0, i + 1));
        i += 1;
    }
    let mut j: usize = 0;
    while j < payload.len()
        invariant
            j <= payload@.len(),
            start <= end <= t@.len(),
            out@ == t@.subrange(0, start as int) + payload@.subrange(0, j as int),
        decreases payload@.len() - j,
    {
        out.push(payload[j]);
        assert(out@ =~= t@.subrange(0, start as int) + payload@.subrange(0, j + 1));
        j += 1;
    }
    assert(payload@.subrange(0, payload@.len() as int) =~= payload@);
    let mut k: usize = end;
    while k < t.len()
        invariant
            end <= k <= t@.len(),
            out@ == t@.subrange(0, start as int) + payload@ + t@.subrange(end as int, k as int),
        decreases t@.len() - k,
    {
        out.push(t[k]);
        assert(out@ =~= t@.subrange(0, start as int) + payload@ + t@.subrange(
            end as int,
            k + 1,
        ));
        k += 1;
    }
    out
}

/// Applies the splices front to back; `splices` must be ordered
/// descending by start with pairwise disjoint, in-bounds ranges.
pub fn apply_splices(text: &Vec<u8>, splices: &Vec<Splice>) -> (out: Vec<u8>)
    requires
        applicable(text@.len() as int, models(splices@)),
    ensures
        out@ == apply_desc(text@, models(splices@)),
{
    let ghost mss = models(splices@);
    let mut t: Vec<u8> = text.clone();
    assert(t@ =~= text@);
    assert(mss.skip(0) =~= mss);
    let mut k: usize = 0;
    while k < splices.len()
        invariant
            k <= splices@.len(),
            mss == models(splices@),
            applicable(t@.len() as int, mss.skip(k as int)),
            apply_desc(t@, mss.skip(k as int)) == apply_desc(text@, mss),
        decreases splices@.len() - k,
    {
        let sp = &splices[k];
        let ghost rest = mss.skip(k as int);
        assert(rest[0] == splice_model(splices@[k as int]));
        let t2 = splice_bytes(&t, sp.start, sp.end, &sp.payload);
        proof {
            assert(t2@ == apply_one(t@, rest[0]));
            assert(rest.skip(1) =~= mss.skip(k + 1));
            assert(apply_desc(t@, rest) == apply_desc(t2@, mss.skip(k + 1)));
            assert forall|i: int| 0 <= i < mss.skip(k + 1).len() implies 0 <= (#[trigger] mss.skip(
                k + 1,
            )[i]).start < mss.skip(k + 1)[i].end <= t2@.len() by {
                assert(mss.skip(k + 1)[i] == rest[i + 1]);
                assert(rest[i + 1].end <= rest[0].start);
            }
        }
        t = t2;
        k += 1;
    }
    assert(mss.skip(splices@.len() as int) =~= Seq::<SpliceModel>::empty());
    t
}

/// No two distinct contained splices share a start offset.
pub open spec fn starts_distinct(fl: Seq<SpliceModel>) -> bool {
    forall|x: SpliceModel, y: SpliceModel|
        #[trigger] fl.contains(x) && #[trigger] fl.contains(y) && x != y ==> x.start != y.start
}

/// Total number of text bytes the splices remove.
pub open spec fn removed_len(fl: Seq<SpliceModel>) -> int
    decreases fl.len(),
{
    if fl.len() == 0 {
        0
    } else {
        (fl[0].end - fl[0].start) + removed_len(fl.skip(1))
    }
}

/// Total number of payload bytes the splices insert.
pub open spec fn inserted_len(fl: Seq<SpliceModel>) -> int
    decreases fl.len(),
{
    if fl.len() == 0 {
        0
    } else {
        fl[0].payload.len() + inserted_len(fl.skip(1))
    }
}

/// The splices of one emote placement: one per range, all with the same
/// payload.
pub open spec fn placement_splices(p: EmotePlacement) -> Seq<SpliceModel> {
    p.ranges@.map_values(
        |r: ByteRange| SpliceModel { start: r.start as int, end: r.end as int, payload: p.payload@ },
    )
}

/// All splices of a list of placements, in order.
pub open spec fn flatten_placements(refs: Seq<EmotePlacement>) -> Seq<SpliceModel>
    decreases refs.len(),
{
    if refs.len() == 0 {
        Seq::empty()
    } else {
        flatten_placements(refs.drop_last()) + placement_splices(refs.last())
    }
}

/// The placements are well-formed against a text of `t_len` bytes:
/// every range is nonempty and in bounds, and no two ranges overlap.
pub open spec fn placements_wf(refs: Seq<EmotePlacement>, t_len: int) -> bool {
    let fl = flatten_placements(refs);
    &&& splices_in_bounds(fl, t_len)
    &&& forall|i: int, j: int|
        0 <= i < fl.len() && 0 <= j < fl.len() && i != j ==> (#[trigger] fl[i]).end
            <= (#[trigger] fl[j]).start || fl[j].end <= fl[i].start
}

/// The rewritten text: all splices applied in descending order of start
/// offset.
pub open spec fn rewrite_spec(t: Seq<u8>, fl: Seq<SpliceModel>) -> Seq<u8> {
    apply_desc(t, sort_desc(fl))
}

/// Index-wise disjointness plus nonempty bounds give the
/// membership-wise properties and distinct starts.
proof fn lemma_wf_membership(fl: Seq<SpliceModel>, t_len: int)
    requires
        splices_in_bounds(fl, t_len),
        forall|i: int, j: int|
            0 <= i < fl.len() && 0 <= j < fl.len() && i != j ==> (#[trigger] fl[i]).end
                <= (#[trigger] fl[j]).start || fl[j].end <= fl[i].start,
    ensures
        splices_disjoint(fl),
        starts_distinct(fl),
        fl.no_duplicates(),
{
    assert forall|x: SpliceModel, y: SpliceModel|
        fl.contains(x) && fl.contains(y) && x != y implies x.end <= y.start || y.end
        <= x.start by {
        let i = choose|i: int| 0 <= i < fl.len() && fl[i] == x;
        let j = choose|j: int| 0 <= j < fl.len() && fl[j] == y;
    }
    assert forall|x: SpliceModel, y: SpliceModel|
        fl.contains(x) && fl.contains(y) && x != y implies x.start != y.start by {
        assert(x.end <= y.start || y.end <= x.start);
        assert(x.start < x.end && y.start < y.end);
    }
    assert forall|i: int, j: int| 0 <= i < j < fl.len() implies fl[i] != fl[j] by {
        assert(fl.contains(fl[i]));
        assert(fl[i].start < fl[i].end);
    }
}

/// The sorted form of well-formed splices is applicable front to back.
proof fn lemma_sorted_applicable(t_len: int, fl: Seq<SpliceModel>)
    requires
        splices_in_bounds(fl, t_len),
        splices_disjoint(fl),
        starts_distinct(fl),
        fl.no_duplicates(),
    ensures
        applicable(t_len, sort_desc(fl)),
{
    broadcast use vstd::seq_lib::group_to_multiset_ensures;

    let ss = sort_desc(fl);
    lemma_sort_desc_multiset(fl);
    lemma_sort_desc_sorted(fl);
    fl.lemma_multiset_has_no_duplicates();
    ss.lemma_multiset_has_no_duplicates_conv();
    assert forall|i: int| 0 <= i < ss.len() implies 0 <= (#[trigger] ss[i]).start < ss[i].end
        <= t_len by {
        assert(ss.contains(ss[i]));
        assert(ss.to_multiset().count(ss[i]) > 0);
        assert(fl.to_multiset().count(ss[i]) > 0);
        assert(fl.contains(ss[i]));
    }
    assert forall|i: int, j: int| 0 <= i < j < ss.len() implies (#[trigger] ss[j]).end
        <= (#[trigger] ss[i]).start by {
        assert(ss.contains(ss[i]) && ss.contains(ss[j]));
        assert(ss.to_multiset().count(ss[i]) > 0 && ss.to_multiset().count(ss[j]) > 0);
        assert(fl.to_multiset().count(ss[i]) > 0 && fl.to_multiset().count(ss[j]) > 0);
        assert(fl.contains(ss[i]) && fl.contains(ss[j]));
        assert(ss[i] != ss[j]);
        assert(ss[j].start <= ss[i].start);
        assert(fl.contains(ss[i]) && fl.contains(ss[j]) && ss[i] != ss[j] ==> ss[i].end
            <= ss[j].start || ss[j].end <= ss[i].start);
    }
}

/// Applying applicable splices changes the length by the inserted minus
/// the removed bytes.
pub proof fn lemma_apply_desc_len(t: Seq<u8>, ss: Seq<SpliceModel>)
    requires
        applicable(t.len() as int, ss),
    ensures
        apply_desc(t, ss).len() == t.len() - removed_len(ss) + inserted_len(ss),
    decreases ss.len(),
{
    if ss.len() == 0 {
    } else {
        let t2 = apply_one(t, ss[0]);
        assert(t2.len() == t.len() - (ss[0].end - ss[0].start) + ss[0].payload.len());
        assert forall|i: int| 0 <= i < ss.skip(1).len() implies 0 <= (#[trigger] ss.skip(
            1,
        )[i]).start < ss.skip(1)[i].end <= t2.len() by {
            assert(ss.skip(1)[i] == ss[i + 1]);
            assert(ss[i + 1].end <= ss[0].start);
        }
        assert forall|i: int, j: int| 0 <= i < j < ss.skip(1).len() implies (#[trigger] ss.skip(
            1,
        )[j]).end <= (#[trigger] ss.skip(1)[i]).start by {
            assert(ss.skip(1)[i] == ss[i + 1] && ss.skip(1)[j] == ss[j + 1]);
        }
        lemma_apply_desc_len(t2, ss.skip(1));
    }
}

/// Inserting adds one splice's contribution to both totals.
proof fn lemma_insert_desc_sums(x: SpliceModel, ss: Seq<SpliceModel>)
    ensures
        removed_len(insert_desc(x, ss)) == removed_len(ss) + (x.end - x.start),
        inserted_len(insert_desc(x, ss)) == inserted_len(ss) + x.payload.len(),
    decreases ss.len(),
{
    assert(removed_len(Seq::<SpliceModel>::empty()) == 0);
    assert(inserted_len(Seq::<SpliceModel>::empty()) == 0);
    if ss.len() == 0 {
        assert(seq![x].skip(1) =~= Seq::<SpliceModel>::empty());
        assert(removed_len(seq![x]) == (x.end - x.start) + removed_len(seq![x].skip(1)));
        assert(inserted_len(seq![x]) == x.payload.len() + inserted_len(seq![x].skip(1)));
    } else if x.start >= ss[0].start {
        let out = seq![x] + ss;
        assert(out.skip(1) =~= ss);
        assert(out[0] == x);
        assert(removed_len(out) == (x.end - x.start) + removed_len(out.skip(1)));
        assert(inserted_len(out) == x.payload.len() + inserted_len(out.skip(1)));
    } else {
        lemma_insert_desc_sums(x, ss.skip(1));
        let out = seq![ss[0]] + insert_desc(x, ss.skip(1));
        assert(insert_desc(x, ss) == out);
        assert(out.skip(1) =~= insert_desc(x, ss.skip(1)));
        assert(out[0] == ss[0]);
        assert(removed_len(out) == (ss[0].end - ss[0].start) + removed_len(out.skip(1)));
        assert(inserted_len(out) == ss[0].payload.len() + inserted_len(out.skip(1)));
        assert(removed_len(ss) == (ss[0].end - ss[0].start) + removed_len(ss.skip(1)));
        assert(inserted_len(ss) == ss[0].payload.len() + inserted_len(ss.skip(1)));
    }
}

/// Sorting keeps both totals.
proof fn lemma_sort_desc_sums(ss: Seq<SpliceModel>)
    ensures
        removed_len(sort_desc(ss)) == removed_len(ss),
        inserted_len(sort_desc(ss)) == inserted_len(ss),
    decreases ss.len(),
{
    if ss.len() == 0 {
    } else {
        lemma_sort_desc_sums(ss.skip(1));
        lemma_insert_desc_sums(ss[0], sort_desc(ss.skip(1)));
    }
}

/// Two weakly descending splice sequences without duplicates, with
/// pairwise distinct starts and the same multiset of splices, are equal.
proof fn lemma_sorted_desc_unique(s1: Seq<SpliceModel>, s2: Seq<SpliceModel>)
    requires
        desc_by_start(s1),
        desc_by_start(s2),
        s1.no_duplicates(),
        s2.no_duplicates(),
        starts_distinct(s1),
        s1.to_multiset() == s2.to_multiset(),
    ensures
        s1 == s2,
    decreases s1.len(),
{
    broadcast use vstd::seq_lib::group_to_multiset_ensures;

    s1.to_multiset_ensures();
    s2.to_multiset_ensures();
    if s1.len() == 0 {
        assert(s2.len() == s2.to_multiset().len());
        assert(s1 =~= s2);
    } else {
        assert(s1.to_multiset().len() == s2.to_multiset().len());
        assert(s1.len() == s2.len());
        assert(s1.contains(s1[0]) && s2.contains(s2[0]));
        assert(s1.to_multiset().count(s1[0]) > 0);
        assert(s2.to_multiset().contains(s1[0]));
        assert(s2.contains(s1[0]));
        assert(s2.to_multiset().count(s2[0]) > 0);
        assert(s1.to_multiset().contains(s2[0]));
        assert(s1.contains(s2[0]));
        let j = choose|j: int| 0 <= j < s2.len() && s2[j] == s1[0];
        let i = choose|i: int| 0 <= i < s1.len() && s1[i] == s2[0];
        assert(s1[0].start <= s2[0].start || s2[j].start <= s2[0].start);
        assert(s1[0].start <= s2[0].start);
        assert(s2[0].start <= s1[0].start);
        if s1[0] != s2[0] {
            assert(s1.contains(s1[0]) && s1.contains(s2[0]));
            assert(s1[0].start != s2[0].start);
            assert(false);
        }
        assert(s1.remove(0) =~= s1.skip(1));
        assert(s2.remove(0) =~= s2.skip(1));
        assert(s1.skip(1).to_multiset() == s1.to_multiset().remove(s1[0]));
        assert(s2.skip(1).to_multiset() == s2.to_multiset().remove(s2[0]));
        assert forall|x: SpliceModel| #[trigger] s1.skip(1).contains(x) implies s1.contains(x) by {
            let w = choose|w: int| 0 <= w < s1.skip(1).len() && s1.skip(1)[w] == x;
            assert(s1[w + 1] == x);
        }
        lemma_sorted_desc_unique(s1.skip(1), s2.skip(1));
        assert forall|k: int| 0 <= k < s1.len() implies s1[k] == s2[k] by {
            if k > 0 {
                assert(s1.skip(1)[k - 1] == s2.skip(1)[k - 1]);
            }
        }
        assert(s1 =~= s2);
    }
}

/// Rewriting does not depend on the order in which emote references were
/// collected or fetched: any two flattenings with the same multiset of
/// splices, no splice repeated and no two splices sharing a start
/// offset, produce byte-identical output.
pub proof fn lemma_rewrite_order_independent(
    t: Seq<u8>,
    fl1: Seq<SpliceModel>,
    fl2: Seq<SpliceModel>,
)
    requires
        fl1.to_multiset() == fl2.to_multiset(),
        fl1.no_duplicates(),
        starts_distinct(fl1),
    ensures
        rewrite_spec(t, fl1) == rewrite_spec(t, fl2),
{
    broadcast use vstd::seq_lib::group_to_multiset_ensures;

    lemma_sort_desc_multiset(fl1);
    lemma_sort_desc_multiset(fl2);
    lemma_sort_desc_sorted(fl1);
    lemma_sort_desc_sorted(fl2);
    fl1.lemma_multiset_has_no_duplicates();
    sort_desc(fl1).lemma_multiset_has_no_duplicates_conv();
    sort_desc(fl2).lemma_multiset_has_no_duplicates_conv();
    assert forall|x: SpliceModel, y: SpliceModel|
        #[trigger] sort_desc(fl1).contains(x) && #[trigger] sort_desc(fl1).contains(y) && x
            != y implies x.start != y.start by {
        assert(sort_desc(fl1).to_multiset().count(x) > 0);
        assert(fl1.to_multiset().count(x) > 0);
        assert(sort_desc(fl1).to_multiset().count(y) > 0);
        assert(fl1.to_multiset().count(y) > 0);
        assert(fl1.contains(x) && fl1.contains(y));
    }
    lemma_sorted_desc_unique(sort_desc(fl1), sort_desc(fl2));
}

/// Collects one splice per range of each placement, payload repeated.
fn flatten_refs(refs: &Vec<EmotePlacement>) -> (out: Vec<Splice>)
    ensures
        models(out@) == flatten_placements(refs@),
{
    let mut out: Vec<Splice> = Vec::new();
    let mut i: usize = 0;
    assert(refs@.take(0) =~= Seq::<EmotePlacement>::empty());
    while i < refs.len()
        invariant
            i <= refs@.len(),
            models(out@) == flatten_placements(refs@.take(i as int)),
        decreases refs@.len() - i,
    {
        let p = &refs[i];
        let ghost base = flatten_placements(refs@.take(i as int));
        let mut j: usize = 0;
        while j < p.ranges.len()
            invariant
                j <= p.ranges@.len(),
                p == &refs@[i as int],
                0 <= i < refs@.len(),
                base == flatten_placements(refs@.take(i as int)),
                models(out@) == base + placement_splices(*p).take(j as int),
            decreases p.ranges@.len() - j,
        {
            let r = p.ranges[j];
            let pay = p.payload.clone();
            assert(pay@ =~= p.payload@);
            let ghost msp = SpliceModel {
                start: r.start as int,
                end: r.end as int,
                payload: pay@,
            };
            let ghost before = models(out@);
            out.push(Splice { start: r.start, end: r.end, payload: pay });
            proof {
                assert(models(out@) =~= before.push(msp));
                assert(placement_splices(refs@[i as int])[j as int] == msp);
                assert(base + placement_splices(refs@[i as int]).take(j + 1) =~= before.push(msp));
            }
            j += 1;
        }
        proof {
            assert(placement_splices(refs@[i as int]).take(j as int) =~= placement_splices(
                refs@[i as int],
            ));
            assert(refs@.take(i + 1).drop_last() =~= refs@.take(i as int));
            assert(refs@.take(i + 1).last() == refs@[i as int]);
        }
        i += 1;
    }
    assert(refs@.take(refs@.len() as int) =~= refs@);
    out
}

/// Rewrites the message text: every range of every placement is removed
/// and the placement's payload inserted in its place, splices applied in
/// descending order of start offset. The output length is the input
/// length minus the removed range bytes plus the inserted payload bytes.
pub fn rewrite(text: &Vec<u8>, refs: &Vec<EmotePlacement>) -> (out: Vec<u8>)
    requires
        placements_wf(refs@, text@.len() as int),
    ensures
        out@ == rewrite_spec(text@, flatten_placements(refs@)),
        out@.len() == text@.len() - removed_len(flatten_placements(refs@)) + inserted_len(
            flatten_placements(refs@),
        ),
{
    let ghost fl = flatten_placements(refs@);
    let flat = flatten_refs(refs);
    let sorted = sort_splices_desc(flat);
    proof {
        lemma_wf_membership(fl, text@.len() as int);
        lemma_sorted_applicable(text@.len() as int, fl);
        lemma_sort_desc_sums(fl);
        lemma_apply_desc_len(text@, sort_desc(fl));
    }
    apply_splices(text, &sorted)
}

} // verus!
