//! The inventory aggregator: merges parser outputs and removes duplicates.
use vstd::prelude::*;
use crate::model::{ComponentView, HardwareComponent, rank, same_identity, status_rank, views};
use crate::parse::{Source, source_records};

verus! {

/// The first index at or after `i` whose entry has the identity of `c`.
pub open spec fn find_identity_from(s: Seq<ComponentView>, c: ComponentView, i: int) -> Option<int>
    decreases s.len() - i,
{
    if i < 0 || i >= s.len() {
        None
    } else if same_identity(s[i], c) {
        Some(i)
    } else {
        find_identity_from(s, c, i + 1)
    }
}

/// The first index of `s` whose entry has the identity of `c`.
pub open spec fn find_identity(s: Seq<ComponentView>, c: ComponentView) -> Option<int> {
    find_identity_from(s, c, 0)
}

/// Adds `c` to inventory `s`: when an entry has the same identity, the one
/// whose status ranks lower is dropped (`c` on a tie), so the kept record
/// stays in input order; a new identity is appended.
pub open spec fn merge_into(s: Seq<ComponentView>, c: ComponentView) -> Seq<ComponentView> {
    match find_identity(s, c) {
        Some(i) => if rank(c.status) > rank(s[i].status) {
            s.remove(i).push(c)
        } else {
            s
        },
        None => s.push(c),
    }
}

/// Inventory `base` with records `s` merged into it one after the other.
pub open spec fn merge_all(base: Seq<ComponentView>, s: Seq<ComponentView>) -> Seq<ComponentView>
    decreases s.len(),
{
    if s.len() == 0 {
        base
    } else {
        merge_into(merge_all(base, s.drop_last()), s.last())
    }
}

/// The inventory of records `s`, merged one after the other.
pub open spec fn dedup(s: Seq<ComponentView>) -> Seq<ComponentView> {
    merge_all(Seq::empty(), s)
}

/// Merging two runs of records one after the other is merging their concatenation.
pub proof fn lemma_merge_all_concat(base: Seq<ComponentView>, a: Seq<ComponentView>, b: Seq<ComponentView>)
    ensures
        merge_all(merge_all(base, a), b) == merge_all(base, a.add(b)),
    decreases b.len(),
{
    if b.len() == 0 {
        assert(a.add(b) =~= a);
    } else {
        lemma_merge_all_concat(base, a, b.drop_last());
        assert(a.add(b).drop_last() =~= a.add(b.drop_last()));
        assert(a.add(b).last() == b.last());
    }
}

/// No two entries of `s` share an identity.
pub open spec fn distinct_identities(s: Seq<ComponentView>) -> bool {
    forall|i: int, j: int|
        0 <= i < s.len() && 0 <= j < s.len() && i != j ==> !same_identity(s[i], s[j])
}

/// The records of several parser outputs, one after the other.
pub open spec fn concat_views(parts: Seq<Vec<HardwareComponent>>) -> Seq<ComponentView>
    decreases parts.len(),
{
    if parts.len() == 0 {
        Seq::empty()
    } else {
        concat_views(parts.drop_last()).add(views(parts.last()@))
    }
}

/// The records that probe results give, in probe order; a failed probe gives none.
pub open spec fn probe_records(probes: Seq<(Source, Option<Vec<u8>>)>) -> Seq<ComponentView>
    decreases probes.len(),
{
    if probes.len() == 0 {
        Seq::empty()
    } else {
        let rest = probe_records(probes.drop_last());
        match probes.last().1 {
            Some(raw) => rest.add(source_records(probes.last().0, raw@)),
            None => rest,
        }
    }
}

/// The inventory that probe results give.
pub open spec fn inventory_of(probes: Seq<(Source, Option<Vec<u8>>)>) -> Seq<ComponentView> {
    dedup(probe_records(probes))
}

proof fn lemma_find_identity_from(s: Seq<ComponentView>, c: ComponentView, i: int)
    requires
        0 <= i,
    ensures
        match find_identity_from(s, c, i) {
            Some(k) => i <= k < s.len() && same_identity(s[k], c),
            None => forall|k: int| i <= k < s.len() ==> !same_identity(#[trigger] s[k], c),
        },
    decreases s.len() - i,
{
    if i < s.len() && !same_identity(s[i], c) {
        lemma_find_identity_from(s, c, i + 1);
    }
}

/// Where in `inv` an entry with the identity of `c` stands.
pub fn find_entry(inv: &Vec<HardwareComponent>, c: &HardwareComponent) -> (r: Option<usize>)
    ensures
        match r {
            Some(i) => find_identity(views(inv@), c@) == Some(i as int),
            None => find_identity(views(inv@), c@) is None,
        },
{
    let ghost s = views(inv@);
    let mut i: usize = 0;
    while i < inv.len()
        invariant
            i <= inv@.len(),
            s == views(inv@),
            find_identity(s, c@) == find_identity_from(s, c@, i as int),
        decreases inv@.len() - i,
    {
        if inv[i].same_identity_as(c) {
            return Some(i);
        }
        i = i + 1;
    }
    None
}

/// Adds one record to an inventory, keeping one entry per identity: the one
/// whose status ranks highest, the earlier one on a tie. A record that wins
/// moves to the end, so entries stay in the order of the records kept.
pub fn merge(inv: &mut Vec<HardwareComponent>, c: HardwareComponent)
    ensures
        views(final(inv)@) == merge_into(views(old(inv)@), c@),
{
    let ghost s = views(inv@);
    proof {
        lemma_find_identity_from(s, c@, 0);
    }
    match find_entry(inv, &c) {
        Some(i) => {
            if status_rank(c.status) > status_rank(inv[i].status) {
                let ghost cv = c@;
                inv.remove(i);
                assert(views(inv@) =~= s.remove(i as int));
                inv.push(c);
                assert(views(inv@) =~= s.remove(i as int).push(cv));
            }
        },
        None => {
            let ghost cv = c@;
            inv.push(c);
            assert(views(inv@) =~= s.push(cv));
        },
    }
}

/// Merges records `items`, in order, into inventory `inv`.
pub fn merge_each(inv: &mut Vec<HardwareComponent>, items: &Vec<HardwareComponent>)
    ensures
        views(final(inv)@) == merge_all(views(old(inv)@), views(items@)),
{
    let ghost base = views(inv@);
    let ghost iv = views(items@);
    let mut i: usize = 0;
    assert(iv.subrange(0, 0) =~= Seq::<ComponentView>::empty());
    while i < items.len()
        invariant
            i <= items@.len(),
            iv == views(items@),
            views(inv@) == merge_all(base, iv.subrange(0, i as int)),
        decreases items@.len() - i,
    {
        let c = items[i].duplicate();
        merge(inv, c);
        assert(iv.subrange(0, i + 1).drop_last() =~= iv.subrange(0, i as int));
        i = i + 1;
    }
    assert(iv.subrange(0, items@.len() as int) =~= iv);
}

/// Merges parser outputs, in the order given, into one inventory.
pub fn aggregate(parts: &Vec<Vec<HardwareComponent>>) -> (r: Vec<HardwareComponent>)
    ensures
        views(r@) == dedup(concat_views(parts@)),
        is_subsequence(views(r@), concat_views(parts@)),
        distinct_identities(concat_views(parts@)) ==> views(r@) == concat_views(parts@),
{
    proof {
        lemma_inventory_subsequence(concat_views(parts@));
    }
    let mut inv: Vec<HardwareComponent> = Vec::new();
    let mut i: usize = 0;
    assert(parts@.subrange(0, 0) =~= Seq::<Vec<HardwareComponent>>::empty());
    while i < parts.len()
        invariant
            i <= parts@.len(),
            views(inv@) == dedup(concat_views(parts@.subrange(0, i as int))),
        decreases parts@.len() - i,
    {
        merge_each(&mut inv, &parts[i]);
        proof {
            let pre = parts@.subrange(0, i as int);
            assert(parts@.subrange(0, i + 1).drop_last() =~= pre);
            lemma_merge_all_concat(Seq::empty(), concat_views(pre), views(parts@[i as int]@));
        }
        i = i + 1;
    }
    assert(parts@.subrange(0, parts@.len() as int) =~= parts@);
    inv
}

/// The inventory that probe results give, sources in the order given: each
/// output is parsed by its source's parser and a failed probe is skipped.
pub fn build_inventory(probes: &Vec<(Source, Option<Vec<u8>>)>) -> (r: Vec<HardwareComponent>)
    ensures
        views(r@) == inventory_of(probes@),
        is_subsequence(views(r@), probe_records(probes@)),
        distinct_identities(probe_records(probes@)) ==> views(r@) == probe_records(probes@),
{
    proof {
        lemma_inventory_subsequence(probe_records(probes@));
    }
    let mut inv: Vec<HardwareComponent> = Vec::new();
    let mut i: usize = 0;
    assert(probes@.subrange(0, 0) =~= Seq::<(Source, Option<Vec<u8>>)>::empty());
    while i < probes.len()
        invariant
            i <= probes@.len(),
            views(inv@) == inventory_of(probes@.subrange(0, i as int)),
        decreases probes@.len() - i,
    {
        let pre = Ghost(probes@.subrange(0, i as int));
        assert(probes@.subrange(0, i + 1).drop_last() =~= pre@);
        let (src, data) = &probes[i];
        match data {
            Some(raw) => {
                let records = src.parse(raw.as_slice());
                merge_each(&mut inv, &records);
                proof {
                    lemma_merge_all_concat(Seq::empty(), probe_records(pre@), views(records@));
                }
            },
            None => {},
        }
        i = i + 1;
    }
    assert(probes@.subrange(0, probes@.len() as int) =~= probes@);
    inv
}

/// The bytes each probe result holds, by source.
pub open spec fn probe_views(probes: Seq<(Source, Option<Vec<u8>>)>) -> Seq<(Source, Option<Seq<u8>>)> {
    probes.map_values(
        |p: (Source, Option<Vec<u8>>)|
            (
                p.0,
                match p.1 {
                    Some(v) => Some(v@),
                    None => None,
                },
            ),
    )
}

proof fn lemma_merge_into_distinct(s: Seq<ComponentView>, c: ComponentView)
    requires
        distinct_identities(s),
    ensures
        distinct_identities(merge_into(s, c)),
{
    lemma_find_identity_from(s, c, 0);
    let t = merge_into(s, c);
    match find_identity(s, c) {
        Some(i) => {
            if rank(c.status) > rank(s[i].status) {
                let r = s.remove(i);
                assert forall|j: int| 0 <= j < r.len() implies !same_identity(#[trigger] r[j], c) by {
                    let sj = if j < i { j } else { j + 1 };
                    assert(r[j] == s[sj]);
                    assert(!same_identity(s[sj], s[i]));
                }
                assert forall|j: int, k: int|
                    0 <= j < t.len() && 0 <= k < t.len() && j != k implies !same_identity(t[j], t[k]) by {
                    if j < r.len() && k < r.len() {
                        let sj = if j < i { j } else { j + 1 };
                        let sk = if k < i { k } else { k + 1 };
                        assert(r[j] == s[sj] && r[k] == s[sk]);
                        assert(!same_identity(s[sj], s[sk]));
                    } else if j < r.len() {
                        assert(!same_identity(r[j], c));
                    } else {
                        assert(!same_identity(r[k], c));
                    }
                }
            }
        },
        None => {
            assert forall|j: int, k: int|
                0 <= j < t.len() && 0 <= k < t.len() && j != k implies !same_identity(t[j], t[k]) by {
                if j < s.len() && k < s.len() {
                    assert(!same_identity(s[j], s[k]));
                } else if j < s.len() {
                    assert(!same_identity(s[j], c));
                } else {
                    assert(!same_identity(s[k], c));
                }
            }
        },
    }
}

proof fn lemma_merge_all_distinct(base: Seq<ComponentView>, s: Seq<ComponentView>)
    requires
        distinct_identities(base),
    ensures
        distinct_identities(merge_all(base, s)),
    decreases s.len(),
{
    if s.len() > 0 {
        lemma_merge_all_distinct(base, s.drop_last());
        lemma_merge_into_distinct(merge_all(base, s.drop_last()), s.last());
    }
}

/// An inventory holds at most one entry per identity.
pub proof fn lemma_inventory_distinct(s: Seq<ComponentView>)
    ensures
        distinct_identities(dedup(s)),
{
    lemma_merge_all_distinct(Seq::empty(), s);
}

/// Merging records whose identities are all distinct changes nothing.
pub proof fn lemma_dedup_distinct(s: Seq<ComponentView>)
    requires
        distinct_identities(s),
    ensures
        dedup(s) == s,
    decreases s.len(),
{
    if s.len() > 0 {
        let p = s.drop_last();
        assert(distinct_identities(p)) by {
            assert forall|j: int, k: int|
                0 <= j < p.len() && 0 <= k < p.len() && j != k implies !same_identity(p[j], p[k]) by {
                assert(p[j] == s[j] && p[k] == s[k]);
            }
        }
        lemma_dedup_distinct(p);
        lemma_find_identity_from(p, s.last(), 0);
        if find_identity(p, s.last()) is Some {
            let k = find_identity(p, s.last())->0;
            assert(p[k] == s[k]);
            assert(!same_identity(s[k], s[s.len() - 1]));
        }
        assert(p.push(s.last()) =~= s);
    }
}

/// Aggregating an inventory again gives the same inventory.
pub proof fn lemma_dedup_idempotent(s: Seq<ComponentView>)
    ensures
        dedup(dedup(s)) == dedup(s),
{
    lemma_inventory_distinct(s);
    lemma_dedup_distinct(dedup(s));
}

proof fn lemma_probe_records_views(p: Seq<(Source, Option<Vec<u8>>)>, q: Seq<(Source, Option<Vec<u8>>)>)
    requires
        probe_views(p) == probe_views(q),
    ensures
        probe_records(p) == probe_records(q),
    decreases p.len(),
{
    assert(p.len() == probe_views(p).len() && q.len() == probe_views(q).len());
    if p.len() > 0 {
        assert(probe_views(p.drop_last()) =~= probe_views(p).drop_last());
        assert(probe_views(q.drop_last()) =~= probe_views(q).drop_last());
        lemma_probe_records_views(p.drop_last(), q.drop_last());
        assert(probe_views(p)[p.len() - 1] == probe_views(q)[q.len() - 1]);
    }
}

/// Two scans whose probes returned the same bytes give identical inventories:
/// the same identities, in the same order, with the same statuses.
pub proof fn lemma_scan_repeatable(p: Seq<(Source, Option<Vec<u8>>)>, q: Seq<(Source, Option<Vec<u8>>)>)
    requires
        probe_views(p) == probe_views(q),
    ensures
        inventory_of(p) == inventory_of(q),
{
    lemma_probe_records_views(p, q);
}

/// Of two records of one identity, the inventory keeps the one whose status
/// ranks higher in `Installed > Available > NotInstalled > Unknown`,
/// whichever comes first.
pub proof fn lemma_dedup_keeps_higher_rank(a: ComponentView, b: ComponentView)
    requires
        same_identity(a, b),
        a.status != b.status,
    ensures
        dedup(seq![a, b]).len() == 1,
        rank(a.status) > rank(b.status) ==> dedup(seq![a, b])[0] == a,
        rank(b.status) > rank(a.status) ==> dedup(seq![a, b])[0] == b,
{
    let s = seq![a, b];
    assert(s.drop_last() =~= seq![a]);
    assert(seq![a].drop_last() =~= Seq::<ComponentView>::empty());
    assert(Seq::<ComponentView>::empty().push(a) =~= seq![a]);
    let e = Seq::<ComponentView>::empty();
    assert(merge_all(e, e) == e);
    assert(find_identity(e, a) is None);
    assert(merge_into(e, a) == seq![a]);
    assert(merge_all(e, seq![a]) == seq![a]);
    assert(seq![a][0] == a);
    assert(find_identity(seq![a], b) == Some(0int));
    assert(seq![a].remove(0).push(b) =~= seq![b]);
    assert(dedup(s) == merge_into(seq![a], b));
}

/// `t` is `s` at the strictly increasing indices `idx`.
pub open spec fn picks(t: Seq<ComponentView>, s: Seq<ComponentView>, idx: Seq<int>) -> bool {
    &&& idx.len() == t.len()
    &&& forall|k: int| 0 <= k < idx.len() ==> 0 <= #[trigger] idx[k] < s.len() && t[k] == s[idx[k]]
    &&& forall|j: int, k: int| 0 <= j < k < idx.len() ==> idx[j] < idx[k]
}

/// `t` is a subsequence of `s`: some of its entries, in their order.
pub open spec fn is_subsequence(t: Seq<ComponentView>, s: Seq<ComponentView>) -> bool {
    exists|idx: Seq<int>| picks(t, s, idx)
}

/// The indices of the records of `s` that its inventory keeps.
proof fn lemma_dedup_picks(s: Seq<ComponentView>) -> (idx: Seq<int>)
    ensures
        picks(dedup(s), s, idx),
    decreases s.len(),
{
    if s.len() == 0 {
        Seq::empty()
    } else {
        let d = s.drop_last();
        let c = s.last();
        let n = d.len() as int;
        let p = dedup(d);
        let pi = lemma_dedup_picks(d);
        assert(dedup(s) == merge_into(p, c));
        match find_identity(p, c) {
            Some(i) => {
                if rank(c.status) > rank(p[i].status) {
                    lemma_find_identity_from(p, c, 0);
                    let r = pi.remove(i).push(n);
                    let t = p.remove(i).push(c);
                    assert forall|k: int| 0 <= k < r.len() implies 0 <= #[trigger] r[k] < s.len() && t[k] == s[r[k]] by {
                        if k < i {
                            assert(r[k] == pi[k]);
                        } else if k < r.len() - 1 {
                            assert(r[k] == pi[k + 1]);
                        }
                    }
                    assert forall|j: int, k: int| 0 <= j < k < r.len() implies r[j] < r[k] by {
                        let pj = if j < i { j } else { j + 1 };
                        if k < r.len() - 1 {
                            let pk = if k < i { k } else { k + 1 };
                            assert(r[j] == pi[pj] && r[k] == pi[pk]);
                        } else {
                            assert(r[j] == pi[pj]);
                        }
                    }
                    r
                } else {
                    assert forall|k: int| 0 <= k < pi.len() implies 0 <= #[trigger] pi[k] < s.len() && p[k] == s[pi[k]] by {
                        assert(d[pi[k]] == s[pi[k]]);
                    }
                    pi
                }
            },
            None => {
                let r = pi.push(n);
                let t = p.push(c);
                assert forall|k: int| 0 <= k < r.len() implies 0 <= #[trigger] r[k] < s.len() && t[k] == s[r[k]] by {
                    if k < pi.len() {
                        assert(r[k] == pi[k]);
                        assert(d[pi[k]] == s[pi[k]]);
                    }
                }
                assert forall|j: int, k: int| 0 <= j < k < r.len() implies r[j] < r[k] by {
                    assert(r[j] == pi[j]);
                }
                r
            },
        }
    }
}

/// An inventory is a subsequence of its records: some of them, in the order
/// they came. Records whose identities are all distinct are kept as they are.
pub proof fn lemma_inventory_subsequence(s: Seq<ComponentView>)
    ensures
        is_subsequence(dedup(s), s),
        distinct_identities(s) ==> dedup(s) == s,
{
    let idx = lemma_dedup_picks(s);
    if distinct_identities(s) {
        lemma_dedup_distinct(s);
    }
}

/// The inventory has an entry of the identity of `r` whose status ranks at
/// least as high as that of `r`.
pub open spec fn covered(t: Seq<ComponentView>, r: ComponentView) -> bool {
    exists|k: int| 0 <= k < t.len() && same_identity(#[trigger] t[k], r) && rank(t[k].status) >= rank(r.status)
}

proof fn lemma_dedup_covers(s: Seq<ComponentView>)
    ensures
        forall|j: int| 0 <= j < s.len() ==> covered(dedup(s), #[trigger] s[j]),
    decreases s.len(),
{
    if s.len() > 0 {
        let d = s.drop_last();
        let c = s.last();
        let p = dedup(d);
        let t = dedup(s);
        lemma_dedup_covers(d);
        lemma_find_identity_from(p, c, 0);
        assert(t == merge_into(p, c));
        assert forall|j: int| 0 <= j < s.len() implies covered(t, #[trigger] s[j]) by {
            if j < d.len() {
                assert(s[j] == d[j]);
                assert(covered(p, d[j]));
                let k = choose|k: int| 0 <= k < p.len() && same_identity(#[trigger] p[k], d[j]) && rank(p[k].status) >= rank(d[j].status);
                match find_identity(p, c) {
                    Some(i) => {
                        if rank(c.status) > rank(p[i].status) {
                            if k == i {
                                assert(t[t.len() - 1] == c);
                            } else if k < i {
                                assert(t[k] == p[k]);
                            } else {
                                assert(t[k - 1] == p[k]);
                            }
                        } else {
                            assert(t[k] == p[k]);
                        }
                    },
                    None => {
                        assert(t[k] == p[k]);
                    },
                }
            } else {
                match find_identity(p, c) {
                    Some(i) => {
                        if rank(c.status) > rank(p[i].status) {
                            assert(t[t.len() - 1] == c);
                        } else {
                            assert(t[i] == p[i]);
                        }
                    },
                    None => {
                        assert(t[t.len() - 1] == c);
                    },
                }
            }
        }
    }
}

/// Of the records of one identity, wherever they stand among others and in
/// whatever order, the inventory keeps exactly one entry: one of those
/// records, whose status ranks at least as high as each of theirs in
/// `Installed > Available > NotInstalled > Unknown`.
pub proof fn lemma_dedup_keeps_highest(s: Seq<ComponentView>, i: int, j: int)
    requires
        0 <= i < s.len(),
        0 <= j < s.len(),
        same_identity(s[i], s[j]),
    ensures
        ({
            let d = dedup(s);
            &&& find_identity(d, s[j]) is Some
            &&& rank(d[find_identity(d, s[j])->0].status) >= rank(s[i].status)
            &&& exists|m: int| 0 <= m < s.len() && same_identity(s[m], s[j]) && #[trigger] s[m] == d[find_identity(d, s[j])->0]
            &&& forall|m: int| 0 <= m < d.len() && m != find_identity(d, s[j])->0 ==> !same_identity(#[trigger] d[m], s[j])
        }),
{
    let d = dedup(s);
    lemma_dedup_covers(s);
    lemma_inventory_distinct(s);
    assert(covered(d, s[i]));
    let k = choose|k: int| 0 <= k < d.len() && same_identity(#[trigger] d[k], s[i]) && rank(d[k].status) >= rank(s[i].status);
    lemma_find_identity_from(d, s[j], 0);
    let f = find_identity(d, s[j])->0;
    assert(f == k) by {
        if f != k {
            assert(!same_identity(d[f], d[k]));
        }
    }
    let idx = lemma_dedup_picks(s);
    assert(s[idx[k]] == d[k]);
    assert forall|m: int| 0 <= m < d.len() && m != f implies !same_identity(#[trigger] d[m], s[j]) by {
        assert(!same_identity(d[m], d[f]));
    }
}

} // verus!
