//! Bookkeeping of retrieval results: grouping hits by key and fusing the
//! ranked lists of the two retrieval back ends.
//!
//! Scores are floating point and stay with the caller; the functions here
//! decide which hits belong together, in which order, and under which
//! source label.

use vstd::prelude::*;
use vstd::string::StringExecFns;

verus! {

/// The keys as character sequences.
pub open spec fn key_view(keys: Seq<String>) -> Seq<Seq<char>> {
    keys.map_values(|s: String| s@)
}

/// The positions below `n` at which `k` occurs in `keys`, in increasing order.
pub open spec fn positions_upto(keys: Seq<Seq<char>>, n: int, k: Seq<char>) -> Seq<int> {
    Seq::new(n as nat, |i: int| i).filter(carries_key(keys, k))
}

/// Whether position `i` of `keys` carries `k`.
pub open spec fn carries_key(keys: Seq<Seq<char>>, k: Seq<char>) -> spec_fn(int) -> bool {
    |i: int| keys[i] == k
}

/// The positions at which `k` occurs in `keys`, in increasing order.
pub open spec fn positions_of(keys: Seq<Seq<char>>, k: Seq<char>) -> Seq<int> {
    positions_upto(keys, keys.len() as int, k)
}

/// The first `cap` elements of `s` (all of them when there are fewer).
pub open spec fn first_n(s: Seq<int>, cap: int) -> Seq<int> {
    if s.len() <= cap {
        s
    } else {
        s.take(cap)
    }
}

/// The distinct keys of `keys`, in order of first appearance.
pub open spec fn distinct_keys(keys: Seq<Seq<char>>) -> Seq<Seq<char>> {
    keys.remove_duplicates(seq![])
}

/// A key and the positions of the items that carry it.
pub struct KeyGroup {
    pub key: String,
    pub positions: Vec<usize>,
}

/// The keys of the groups.
pub open spec fn group_keys(groups: Seq<KeyGroup>) -> Seq<Seq<char>> {
    groups.map_values(|g: KeyGroup| g.key@)
}

/// The positions as integers.
pub open spec fn ints_of(v: Seq<usize>) -> Seq<int> {
    v.map_values(|p: usize| p as int)
}

/// The positions of a group as integers.
pub open spec fn group_positions_view(g: KeyGroup) -> Seq<int> {
    ints_of(g.positions@)
}

proof fn lemma_positions_step(keys: Seq<Seq<char>>, n: int, k: Seq<char>)
    requires
        0 <= n < keys.len(),
    ensures
        positions_upto(keys, n + 1, k) == if keys[n] == k {
            positions_upto(keys, n, k).push(n)
        } else {
            positions_upto(keys, n, k)
        },
{
    assert(Seq::new((n + 1) as nat, |i: int| i) == Seq::new(n as nat, |i: int| i).push(n));
    Seq::new(n as nat, |i: int| i).lemma_filter_push(n, carries_key(keys, k));
}

proof fn lemma_positions_absent(keys: Seq<Seq<char>>, n: int, k: Seq<char>)
    requires
        0 <= n <= keys.len(),
        !keys.take(n).contains(k),
    ensures
        positions_upto(keys, n, k) == Seq::<int>::empty(),
    decreases n,
{
    if n > 0 {
        assert(keys.take(n - 1) == keys.take(n).drop_last());
        assert(!keys.take(n - 1).contains(k)) by {
            if keys.take(n - 1).contains(k) {
                let j = choose|j: int| 0 <= j < keys.take(n - 1).len() && #[trigger] keys.take(n - 1)[j] == k;
                assert(keys.take(n)[j] == k);
            }
        }
        lemma_positions_absent(keys, n - 1, k);
        assert(keys.take(n)[n - 1] == keys[n - 1]);
        lemma_positions_step(keys, n - 1, k);
    }
}

/// Groups the positions of `keys` by key: one group per distinct key, in
/// order of first appearance, holding the first `cap` positions (in
/// increasing order) at which that key occurs.
///
/// Groups live in a vector searched by key rather than a `HashMap` keyed by
/// `String`, which std gives no specification for; first-appearance order
/// also makes the result independent of hashing.
pub fn group_positions(keys: &Vec<String>, cap: usize) -> (groups: Vec<KeyGroup>)
    requires
        cap >= 1,
    ensures
        group_keys(groups@) == distinct_keys(key_view(keys@)),
        forall|j: int|
            0 <= j < groups.len() ==> #[trigger] group_positions_view(groups[j]) == first_n(
                positions_of(key_view(keys@), groups[j].key@),
                cap as int,
            ),
{
    let ghost kv = key_view(keys@);
    let mut gkeys: Vec<String> = Vec::new();
    let mut gpos: Vec<Vec<usize>> = Vec::new();
    let mut i: usize = 0;
    assert(kv.take(0) == Seq::<Seq<char>>::empty());
    while i < keys.len()
        invariant
            kv == key_view(keys@),
            cap >= 1,
            i <= keys.len(),
            gkeys.len() == gpos.len(),
            key_view(gkeys@) == distinct_keys(kv.take(i as int)),
            key_view(gkeys@).no_duplicates(),
            forall|j: int|
                0 <= j < gpos.len() ==> #[trigger] ints_of(gpos@[j]@)
                    == first_n(positions_upto(kv, i as int, gkeys@[j]@), cap as int),
        decreases keys.len() - i,
    {
        let ghost k = kv[i as int];
        let ghost old_keys = key_view(gkeys@);
        proof {
            assert(kv.take(i + 1) == kv.take(i as int) + seq![k]);
            kv.take(i as int).lemma_remove_duplicates_properties(seq![]);
            kv.take(i as int).lemma_remove_duplicates_append(k, seq![]);
            assert(kv.take(i as int) + Seq::<Seq<char>>::empty() == kv.take(i as int));
            assert forall|j: int| 0 <= j < gpos.len() implies positions_upto(kv, i + 1, #[trigger] gkeys@[j]@)
                == if k == gkeys@[j]@ {
                positions_upto(kv, i as int, gkeys@[j]@).push(i as int)
            } else {
                positions_upto(kv, i as int, gkeys@[j]@)
            } by {
                lemma_positions_step(kv, i as int, gkeys@[j]@);
            }
        }
        let mut found: Option<usize> = None;
        let mut j: usize = 0;
        while j < gkeys.len()
            invariant
                kv == key_view(keys@),
                i < keys.len(),
                k == kv[i as int],
                j <= gkeys.len(),
                found is None ==> forall|t: int| 0 <= t < j ==> gkeys@[t]@ != k,
                found matches Some(f) ==> f < gkeys.len() && gkeys@[f as int]@ == k,
            ensures
                found is None ==> forall|t: int| 0 <= t < gkeys.len() ==> gkeys@[t]@ != k,
                found matches Some(f) ==> f < gkeys.len() && gkeys@[f as int]@ == k,
            decreases gkeys.len() - j,
        {
            if gkeys[j].eq(&keys[i]) {
                found = Some(j);
                break;
            }
            j = j + 1;
        }
        match found {
            Some(f) => {
                assert(old_keys[f as int] == k);
                assert(old_keys.contains(k));
                let ghost old_pos = positions_upto(kv, i as int, k);
                if gpos[f].len() < cap {
                    let mut p = gpos[f].clone();
                    p.push(i);
                    let ghost before = gpos@;
                    gpos.set(f, p);
                    proof {
                        assert forall|t: int| 0 <= t < gpos.len() implies #[trigger] ints_of(gpos@[t]@) == first_n(positions_upto(kv, i + 1, gkeys@[t]@), cap as int) by {
                            if t == f {
                                assert(ints_of(gpos@[t]@) == ints_of(before[t]@).push(i as int));
                                assert(ints_of(before[t]@) == first_n(old_pos, cap as int));
                                assert(old_pos.len() < cap);
                            } else {
                                assert(gkeys@[t]@ != k) by {
                                    assert(old_keys[t] == gkeys@[t]@);
                                }
                            }
                        }
                    }
                } else {
                    proof {
                        assert forall|t: int| 0 <= t < gpos.len() implies #[trigger] ints_of(gpos@[t]@) == first_n(positions_upto(kv, i + 1, gkeys@[t]@), cap as int) by {
                            if t == f {
                                assert(ints_of(gpos@[t]@) == first_n(old_pos, cap as int));
                                assert(old_pos.len() >= cap);
                                assert(old_pos.push(i as int).take(cap as int) =~= old_pos.take(cap as int));
                            } else {
                                assert(gkeys@[t]@ != k) by {
                                    assert(old_keys[t] == gkeys@[t]@);
                                }
                            }
                        }
                    }
                }
            },
            None => {
                assert(!old_keys.contains(k)) by {
                    if old_keys.contains(k) {
                        let t = choose|t: int| 0 <= t < old_keys.len() && #[trigger] old_keys[t] == k;
                        assert(old_keys[t] == gkeys@[t]@);
                    }
                }
                proof {
                    assert(!kv.take(i as int).contains(k));
                    lemma_positions_absent(kv, i as int, k);
                    lemma_positions_step(kv, i as int, k);
                }
                let ghost before = gpos@;
                gkeys.push(keys[i].clone());
                let mut p: Vec<usize> = Vec::new();
                p.push(i);
                gpos.push(p);
                proof {
                    assert(key_view(gkeys@) == old_keys.push(k));
                    assert(old_keys.push(k) == old_keys + seq![k]);
                    assert forall|t: int| 0 <= t < gpos.len() implies #[trigger] ints_of(gpos@[t]@) == first_n(positions_upto(kv, i + 1, gkeys@[t]@), cap as int) by {
                        if t < before.len() {
                            assert(gkeys@[t]@ == old_keys[t]);
                            assert(old_keys[t] != k);
                            assert(gpos@[t] == before[t]);
                        } else {
                            assert(gkeys@[t]@ == k);
                            assert(positions_upto(kv, i + 1, k) == Seq::<int>::empty().push(i as int));
                            assert(ints_of(gpos@[t]@) =~= seq![i as int]);
                        }
                    }
                }
            },
        }
        i = i + 1;
    }
    assert(kv.take(keys.len() as int) == kv);
    let mut groups: Vec<KeyGroup> = Vec::new();
    let mut t: usize = 0;
    while t < gkeys.len()
        invariant
            t <= gkeys.len(),
            gkeys.len() == gpos.len(),
            groups.len() == t,
            forall|s: int| 0 <= s < t ==> #[trigger] groups@[s].key@ == gkeys@[s]@ && groups@[s].positions@
                == gpos@[s]@,
        decreases gkeys.len() - t,
    {
        let positions = gpos[t].clone();
        assert(positions@ =~= gpos@[t as int]@);
        groups.push(KeyGroup { key: gkeys[t].clone(), positions });
        t = t + 1;
    }
    assert(group_keys(groups@) == key_view(gkeys@));
    groups
}

/// Most hits kept per group of results.
pub const MAX_HITS_PER_GROUP: usize = 3;

/// Groups ranked hits by their group key (the hit's group key, else its
/// file path): one group per distinct key in order of first appearance,
/// holding the positions of its first `MAX_HITS_PER_GROUP` hits. Over hits
/// sorted by decreasing score, a group's first hit has its highest score.
pub fn group_hits(group_keys: &Vec<String>) -> (groups: Vec<KeyGroup>)
    ensures
        crate::rank::group_keys(groups@) == distinct_keys(key_view(group_keys@)),
        forall|j: int|
            0 <= j < groups.len() ==> #[trigger] group_positions_view(groups[j]) == first_n(
                positions_of(key_view(group_keys@), groups[j].key@),
                3,
            ),
{
    group_positions(group_keys, MAX_HITS_PER_GROUP)
}

// ---------------------------------------------------------------------------
// Fusing the two retrieval back ends.
// ---------------------------------------------------------------------------

/// A hit from the vector store: its chunk id and its source label.
pub struct RankedHit {
    pub chunk_id: String,
    pub source: String,
}

/// Which input list a fused hit takes its data from, and at which rank.
#[derive(Debug, PartialEq, Eq, Structural)]
pub enum HitOrigin {
    Lance(usize),
    Falkor(usize),
}

/// One chunk after fusion: its id, its source label, the hit whose data it
/// keeps, and its ranks in the vector-store and graph-store lists. Its
/// fusion score is the sum over those ranks `r` of `1 / (61 + r)`, weighted
/// by 0.9 for graph-store ranks.
pub struct FusedHit {
    pub chunk_id: String,
    pub source: String,
    pub origin: HitOrigin,
    pub lance_ranks: Vec<usize>,
    pub falkor_ranks: Vec<usize>,
}

/// The label a hit already found gets when the graph store finds it again.
pub open spec fn relabel_for_graph(s: Seq<char>) -> Seq<char> {
    if s == "lancedb+fusion"@ {
        "lancedb+falkor"@
    } else {
        "falkor+fusion"@
    }
}

/// `relabel_for_graph` applied `t` times.
pub open spec fn relabel_times(s: Seq<char>, t: nat) -> Seq<char>
    decreases t,
{
    if t == 0 {
        s
    } else {
        relabel_times(relabel_for_graph(s), (t - 1) as nat)
    }
}

/// The source label of a fused chunk found `nl` times by the vector store
/// (the first time with label `lance_source`) and `nf` times by the graph
/// store: the first vector-store hit keeps its label and each further one
/// makes it `lancedb+fusion`; a chunk first found by the graph store is
/// labelled `falkor`; each further graph-store hit relabels it.
pub open spec fn fused_label(lance_source: Seq<char>, nl: nat, nf: nat) -> Seq<char> {
    if nl == 0 {
        relabel_times("falkor"@, (nf - 1) as nat)
    } else if nl == 1 {
        relabel_times(lance_source, nf)
    } else {
        relabel_times("lancedb+fusion"@, nf)
    }
}

/// The chunk ids of the vector-store hits.
pub open spec fn lance_ids(lance: Seq<RankedHit>) -> Seq<Seq<char>> {
    lance.map_values(|h: RankedHit| h.chunk_id@)
}

/// `s` with `d` added to each element.
pub open spec fn shifted(s: Seq<int>, d: int) -> Seq<int> {
    s.map_values(|x: int| x + d)
}

proof fn lemma_positions_prefix(a: Seq<Seq<char>>, b: Seq<Seq<char>>, n: int, k: Seq<char>)
    requires
        0 <= n <= a.len(),
    ensures
        positions_upto(a + b, n, k) == positions_upto(a, n, k),
    decreases n,
{
    if n > 0 {
        lemma_positions_prefix(a, b, n - 1, k);
        lemma_positions_step(a + b, n - 1, k);
        lemma_positions_step(a, n - 1, k);
    }
}

proof fn lemma_positions_concat(a: Seq<Seq<char>>, b: Seq<Seq<char>>, m: int, k: Seq<char>)
    requires
        0 <= m <= b.len(),
    ensures
        positions_upto(a + b, a.len() + m, k) == positions_of(a, k) + shifted(
            positions_upto(b, m, k),
            a.len() as int,
        ),
    decreases m,
{
    if m == 0 {
        lemma_positions_prefix(a, b, a.len() as int, k);
        assert(positions_upto(b, 0, k) == Seq::<int>::empty());
        assert(shifted(Seq::<int>::empty(), a.len() as int) == Seq::<int>::empty());
        assert(positions_of(a, k) + Seq::<int>::empty() == positions_of(a, k));
    } else {
        lemma_positions_concat(a, b, m - 1, k);
        lemma_positions_step(a + b, a.len() + m - 1, k);
        lemma_positions_step(b, m - 1, k);
        assert((a + b)[a.len() + m - 1] == b[m - 1]);
        let p = positions_upto(b, m - 1, k);
        assert(shifted(p.push(m - 1), a.len() as int) == shifted(p, a.len() as int).push(
            a.len() + m - 1,
        ));
    }
}

proof fn lemma_positions_bounded(keys: Seq<Seq<char>>, n: int, k: Seq<char>)
    requires
        0 <= n <= keys.len(),
    ensures
        forall|j: int|
            0 <= j < positions_upto(keys, n, k).len() ==> 0 <= #[trigger] positions_upto(
                keys,
                n,
                k,
            )[j] < n && keys[positions_upto(keys, n, k)[j]] == k,
        forall|j1: int, j2: int|
            0 <= j1 < j2 < positions_upto(keys, n, k).len() ==> positions_upto(keys, n, k)[j1]
                < positions_upto(keys, n, k)[j2],
    decreases n,
{
    if n > 0 {
        lemma_positions_bounded(keys, n - 1, k);
        lemma_positions_step(keys, n - 1, k);
    }
}

/// Applies `relabel_for_graph` `t` times.
fn relabel_times_exec(s: String, t: usize) -> (r: String)
    ensures
        r@ == relabel_times(s@, t as nat),
{
    let mut cur = s;
    let mut i: usize = 0;
    while i < t
        invariant
            i <= t,
            relabel_times(s@, t as nat) == relabel_times(cur@, (t - i) as nat),
        decreases t - i,
    {
        let lf = String::from_str("lancedb+fusion");
        cur = if cur.eq(&lf) {
            String::from_str("lancedb+falkor")
        } else {
            String::from_str("falkor+fusion")
        };
        i = i + 1;
    }
    cur
}

/// Merges the ranked chunk lists of the vector store (`lance`, with each
/// hit's label) and of the graph store (`falkor_ids`): one entry per
/// distinct chunk id, in order of first appearance (vector-store list
/// first), with every rank at which each store found it, the hit whose
/// data it keeps (the first occurrence), and its source label.
pub fn fuse_ranked_hits(lance: &Vec<RankedHit>, falkor_ids: &Vec<String>) -> (fused: Vec<FusedHit>)
    ensures
        fused@.map_values(|f: FusedHit| f.chunk_id@) == distinct_keys(
            lance_ids(lance@) + key_view(falkor_ids@),
        ),
        forall|j: int|
            0 <= j < fused.len() ==> {
                let f = #[trigger] fused@[j];
                let lr = positions_of(lance_ids(lance@), f.chunk_id@);
                let fr = positions_of(key_view(falkor_ids@), f.chunk_id@);
                &&& ints_of(f.lance_ranks@) == lr
                &&& ints_of(f.falkor_ranks@) == fr
                &&& lr.len() > 0 ==> f.origin == HitOrigin::Lance(lr[0] as usize)
                &&& lr.len() == 0 ==> fr.len() > 0 && f.origin == HitOrigin::Falkor(fr[0] as usize)
                &&& f.source@ == fused_label(
                    if lr.len() > 0 {
                        lance@[lr[0]].source@
                    } else {
                        seq![]
                    },
                    lr.len(),
                    fr.len(),
                )
            },
{
    let nl = lance.len();
    let mut ids: Vec<String> = Vec::new();
    let mut i: usize = 0;
    while i < nl
        invariant
            nl == lance.len(),
            i <= nl,
            key_view(ids@) == lance_ids(lance@).take(i as int),
        decreases nl - i,
    {
        ids.push(lance[i].chunk_id.clone());
        assert(lance_ids(lance@).take(i + 1) == lance_ids(lance@).take(i as int).push(lance@[i as int].chunk_id@));
        i = i + 1;
    }
    assert(lance_ids(lance@).take(nl as int) == lance_ids(lance@));
    let mut k: usize = 0;
    while k < falkor_ids.len()
        invariant
            nl == lance.len(),
            k <= falkor_ids.len(),
            key_view(ids@) == lance_ids(lance@) + key_view(falkor_ids@).take(k as int),
        decreases falkor_ids.len() - k,
    {
        let ghost before = key_view(ids@);
        ids.push(falkor_ids[k].clone());
        assert(key_view(ids@) == before.push(falkor_ids@[k as int]@));
        assert(key_view(falkor_ids@).take(k + 1) == key_view(falkor_ids@).take(k as int).push(falkor_ids@[k as int]@));
        assert(lance_ids(lance@) + key_view(falkor_ids@).take(k + 1) == (lance_ids(lance@) + key_view(falkor_ids@).take(k as int)).push(falkor_ids@[k as int]@));
        k = k + 1;
    }
    assert(key_view(falkor_ids@).take(falkor_ids.len() as int) == key_view(falkor_ids@));
    let ghost all = key_view(ids@);
    let cap = if ids.len() == 0 { 1 } else { ids.len() };
    let groups = group_positions(&ids, cap);
    let mut fused: Vec<FusedHit> = Vec::new();
    let mut g: usize = 0;
    while g < groups.len()
        invariant
            nl == lance.len(),
            all == key_view(ids@),
            all == lance_ids(lance@) + key_view(falkor_ids@),
            cap >= ids.len(),
            cap >= 1,
            crate::rank::group_keys(groups@) == distinct_keys(all),
            forall|j: int|
                0 <= j < groups.len() ==> #[trigger] group_positions_view(groups[j]) == first_n(
                    positions_of(all, groups[j].key@),
                    cap as int,
                ),
            g <= groups.len(),
            fused.len() == g,
            forall|j: int|
                0 <= j < g ==> (#[trigger] fused@[j]).chunk_id@ == groups@[j].key@ && {
                    let f = fused@[j];
                    let lr = positions_of(lance_ids(lance@), f.chunk_id@);
                    let fr = positions_of(key_view(falkor_ids@), f.chunk_id@);
                    &&& ints_of(f.lance_ranks@) == lr
                    &&& ints_of(f.falkor_ranks@) == fr
                    &&& lr.len() > 0 ==> f.origin == HitOrigin::Lance(lr[0] as usize)
                    &&& lr.len() == 0 ==> fr.len() > 0 && f.origin == HitOrigin::Falkor(fr[0] as usize)
                    &&& f.source@ == fused_label(
                        if lr.len() > 0 {
                            lance@[lr[0]].source@
                        } else {
                            seq![]
                        },
                        lr.len(),
                        fr.len(),
                    )
                },
        decreases groups.len() - g,
    {
        let group = &groups[g];
        let ghost key = group.key@;
        let ghost lr = positions_of(lance_ids(lance@), key);
        let ghost fr = positions_of(key_view(falkor_ids@), key);
        let ghost pos = positions_of(all, key);
        proof {
            lemma_positions_concat(lance_ids(lance@), key_view(falkor_ids@), falkor_ids.len() as int, key);
            lemma_positions_bounded(all, all.len() as int, key);
            lemma_positions_bounded(lance_ids(lance@), nl as int, key);
            lemma_positions_bounded(key_view(falkor_ids@), falkor_ids.len() as int, key);
            assert(pos == lr + shifted(fr, nl as int));
            assert(pos.len() <= all.len());
            assert(group_positions_view(*group) == pos);
            // the group's key occurs in the ids, so it has a position
            all.lemma_remove_duplicates_properties(seq![]);
            assert(crate::rank::group_keys(groups@)[g as int] == key);
            assert(distinct_keys(all).contains(key));
            assert((all + Seq::<Seq<char>>::empty()).contains(key));
            assert(all + Seq::<Seq<char>>::empty() == all);
            let w = choose|w: int| 0 <= w < all.len() && #[trigger] all[w] == key;
            lemma_positions_member(all, all.len() as int, key, w);
        }
        let mut lance_ranks: Vec<usize> = Vec::new();
        let mut falkor_ranks: Vec<usize> = Vec::new();
        let mut t: usize = 0;
        while t < group.positions.len()
            invariant
                nl == lance.len(),
                group_positions_view(*group) == pos,
                pos == lr + shifted(fr, nl as int),
                t <= group.positions.len(),
                t <= lr.len() ==> ints_of(lance_ranks@) == lr.take(t as int) && falkor_ranks@.len() == 0,
                t > lr.len() ==> ints_of(lance_ranks@) == lr && ints_of(falkor_ranks@) == fr.take(
                    t - lr.len(),
                ),
                forall|j: int| 0 <= j < lr.len() ==> 0 <= #[trigger] lr[j] < nl,
                forall|j: int| 0 <= j < fr.len() ==> 0 <= #[trigger] fr[j],
            decreases group.positions.len() - t,
        {
            let p = group.positions[t];
            assert(ints_of(group.positions@)[t as int] == p as int);
            assert(pos[t as int] == p);
            assert(pos.len() == lr.len() + fr.len());
            assert(t >= lr.len() ==> pos[t as int] == shifted(fr, nl as int)[t - lr.len()]);
            assert(t >= lr.len() ==> shifted(fr, nl as int)[t - lr.len()] == fr[t - lr.len()] + nl);
            assert(t < lr.len() ==> pos[t as int] == lr[t as int]);
            if p < nl {
                assert(t < lr.len()) by {
                    if t >= lr.len() {
                        assert(pos[t as int] == fr[t - lr.len()] + nl);
                    }
                }
                lance_ranks.push(p);
                assert(ints_of(lance_ranks@) == lr.take(t + 1));
            } else {
                assert(t >= lr.len()) by {
                    if t < lr.len() {
                        assert(pos[t as int] == lr[t as int]);
                    }
                }
                assert(pos[t as int] == fr[t - lr.len()] + nl);
                falkor_ranks.push(p - nl);
                assert(ints_of(falkor_ranks@) == fr.take(t + 1 - lr.len()));
            }
            t = t + 1;
        }
        assert(lr.take(lr.len() as int) == lr);
        assert(fr.take(fr.len() as int) == fr);
        assert(ints_of(lance_ranks@) == lr);
        assert(ints_of(falkor_ranks@) == fr);
        let origin;
        let source;
        if lance_ranks.len() > 0 {
            let first = lance_ranks[0];
            assert(ints_of(lance_ranks@)[0] == first as int);
            assert(first < nl);
            origin = HitOrigin::Lance(first);
            let base = if lance_ranks.len() == 1 {
                lance[first].source.clone()
            } else {
                String::from_str("lancedb+fusion")
            };
            source = relabel_times_exec(base, falkor_ranks.len());
        } else {
            assert(fr.len() > 0);
            origin = HitOrigin::Falkor(falkor_ranks[0]);
            source = relabel_times_exec(String::from_str("falkor"), falkor_ranks.len() - 1);
        }
        let ghost before = fused@;
        fused.push(
            FusedHit {
                chunk_id: group.key.clone(),
                source,
                origin,
                lance_ranks,
                falkor_ranks,
            },
        );
        assert(fused@[g as int].chunk_id@ == key);
        assert(forall|j: int| 0 <= j < g ==> fused@[j] == before[j]);
        g = g + 1;
    }
    assert(fused@.map_values(|f: FusedHit| f.chunk_id@) == crate::rank::group_keys(groups@));
    fused
}

proof fn lemma_positions_member(keys: Seq<Seq<char>>, n: int, k: Seq<char>, w: int)
    requires
        0 <= w < n <= keys.len(),
        keys[w] == k,
    ensures
        positions_upto(keys, n, k).len() > 0,
    decreases n,
{
    lemma_positions_step(keys, n - 1, k);
    if w < n - 1 {
        lemma_positions_member(keys, n - 1, k, w);
    }
}

proof fn lemma_remove_duplicates_no_dup(s: Seq<Seq<char>>, seen: Seq<Seq<char>>)
    requires
        seen.no_duplicates(),
    ensures
        s.remove_duplicates(seen).no_duplicates(),
    decreases s.len(),
{
    if s.len() > 0 {
        if seen.contains(s[0]) {
            lemma_remove_duplicates_no_dup(s.skip(1), seen);
        } else {
            let seen2 = seen + seq![s[0]];
            assert forall|a: int, b: int| 0 <= a < b < seen2.len() implies seen2[a] != seen2[b] by {
                if b == seen.len() {
                    assert(seen2[a] == seen[a]);
                }
            }
            lemma_remove_duplicates_no_dup(s.skip(1), seen2);
        }
    }
}

/// The shape of a grouping of `keys` with at most `cap` positions per group:
/// group keys are distinct and are exactly the keys that occur; each group
/// holds at most `cap` positions, in increasing order, each carrying the
/// group's key, and a key that occurs has at least one position.
pub proof fn lemma_grouping_shape(keys: Seq<Seq<char>>, k: Seq<char>, cap: int)
    requires
        cap >= 1,
    ensures
        distinct_keys(keys).no_duplicates(),
        distinct_keys(keys).contains(k) <==> keys.contains(k),
        first_n(positions_of(keys, k), cap).len() <= cap,
        keys.contains(k) ==> first_n(positions_of(keys, k), cap).len() >= 1,
        forall|j: int|
            0 <= j < first_n(positions_of(keys, k), cap).len() ==> {
                let p = #[trigger] first_n(positions_of(keys, k), cap)[j];
                0 <= p < keys.len() && keys[p] == k
            },
        forall|j1: int, j2: int|
            0 <= j1 < j2 < first_n(positions_of(keys, k), cap).len() ==> first_n(
                positions_of(keys, k),
                cap,
            )[j1] < first_n(positions_of(keys, k), cap)[j2],
{
    lemma_remove_duplicates_no_dup(keys, seq![]);
    keys.lemma_remove_duplicates_properties(seq![]);
    assert(keys + Seq::<Seq<char>>::empty() == keys);
    lemma_positions_bounded(keys, keys.len() as int, k);
    let ps = positions_of(keys, k);
    let f = first_n(ps, cap);
    if keys.contains(k) {
        let w = choose|w: int| 0 <= w < keys.len() && keys[w] == k;
        lemma_positions_member(keys, keys.len() as int, k, w);
    }
    assert forall|j: int| 0 <= j < f.len() implies {
        let p = #[trigger] f[j];
        0 <= p < keys.len() && keys[p] == k
    } by {
        assert(f[j] == ps[j]);
    }
    assert forall|j1: int, j2: int| 0 <= j1 < j2 < f.len() implies f[j1] < f[j2] by {
        assert(f[j1] == ps[j1]);
        assert(f[j2] == ps[j2]);
    }
}

} // verus!
