//! Sampling of operating-system vitals.
//!
//! The operating system is read through trusted wrappers that hand back plain
//! values: memory figures in bytes, a volume list with free bytes, and a
//! sensor list with degrees Celsius. Everything computed from those values —
//! deduplication, ordering, extremes — is verified. A [`Snapshot`] bundles
//! one round of readings so that the rest of the library is a pure function
//! of it.

use vstd::prelude::*;

use crate::order::{lex_le, lex_lt, lemma_lex_le_trans, lemma_lex_total, str_lt};

verus! {

broadcast use vstd::seq_lib::to_multiset_build, vstd::seq_lib::to_multiset_insert;

/// One round of memory readings, each figure in bytes.
#[derive(Clone, Copy, Debug)]
pub struct MemoryStats {
    pub total: u64,
    pub used: u64,
    pub free: u64,
    pub available: u64,
    pub swap_total: u64,
    pub swap_used: u64,
    pub swap_free: u64,
}

/// A mounted volume and its free space in bytes.
#[derive(Debug)]
pub struct DiskInfo {
    pub name: String,
    pub free_bytes: u64,
}

/// Mathematical value of a [`DiskInfo`].
pub struct DiskV {
    pub name: Seq<char>,
    pub free_bytes: u64,
}

impl View for DiskInfo {
    type V = DiskV;

    open spec fn view(&self) -> DiskV {
        DiskV { name: self.name@, free_bytes: self.free_bytes }
    }
}

/// A temperature sensor and its reading in whole degrees Celsius.
#[derive(Debug)]
pub struct TempInfo {
    pub label: String,
    pub degrees: u32,
}

/// Mathematical value of a [`TempInfo`].
pub struct TempV {
    pub label: Seq<char>,
    pub degrees: u32,
}

impl View for TempInfo {
    type V = TempV;

    open spec fn view(&self) -> TempV {
        TempV { label: self.label@, degrees: self.degrees }
    }
}

/// The values of a volume list.
pub open spec fn disk_views(s: Seq<DiskInfo>) -> Seq<DiskV> {
    s.map_values(|d: DiskInfo| d@)
}

/// The values of a sensor list.
pub open spec fn temp_views(s: Seq<TempInfo>) -> Seq<TempV> {
    s.map_values(|t: TempInfo| t@)
}

/// No two volumes of the list share a name.
pub open spec fn disk_names_unique(s: Seq<DiskV>) -> bool {
    forall|i: int, j: int| 0 <= i < j < s.len() ==> s[i].name != s[j].name
}

/// Some volume of the list is named `n`.
pub open spec fn has_disk(s: Seq<DiskV>, n: Seq<char>) -> bool {
    exists|i: int| 0 <= i < s.len() && s[i].name == n
}

/// The free space of the last volume of the list named `n`, or 0 when none
/// is.
pub open spec fn last_free(s: Seq<DiskV>, n: Seq<char>) -> u64
    decreases s.len(),
{
    if s.len() == 0 {
        0
    } else if s.last().name == n {
        s.last().free_bytes
    } else {
        last_free(s.drop_last(), n)
    }
}

/// The volume list is sorted by name.
pub open spec fn disks_sorted(s: Seq<DiskV>) -> bool {
    forall|i: int, j: int| 0 <= i < j < s.len() ==> lex_le(s[i].name, s[j].name)
}

/// The sensor list is sorted by label.
pub open spec fn temps_sorted(s: Seq<TempV>) -> bool {
    forall|i: int, j: int| 0 <= i < j < s.len() ==> lex_le(s[i].label, s[j].label)
}

/// The greatest reading of the sensor list, or 0 when the list is empty.
pub open spec fn max_temp(s: Seq<TempV>) -> u32
    decreases s.len(),
{
    if s.len() == 0 {
        0
    } else if s.last().degrees > max_temp(s.drop_last()) {
        s.last().degrees
    } else {
        max_temp(s.drop_last())
    }
}

/// The least reading of the sensor list, or 0 when the list is empty.
pub open spec fn min_temp(s: Seq<TempV>) -> u32
    decreases s.len(),
{
    if s.len() == 0 {
        0
    } else if s.len() == 1 {
        s[0].degrees
    } else if s.last().degrees < min_temp(s.drop_last()) {
        s.last().degrees
    } else {
        min_temp(s.drop_last())
    }
}

/// The greatest reading of a sensor list.
pub fn max_temp_of(temps: &Vec<TempInfo>) -> (r: u32)
    ensures
        r == max_temp(temp_views(temps@)),
{
    let mut m: u32 = 0;
    let mut i: usize = 0;
    proof {
        assert(temp_views(temps@).take(0) =~= Seq::<TempV>::empty());
    }
    while i < temps.len()
        invariant
            i <= temps@.len(),
            m == max_temp(temp_views(temps@).take(i as int)),
        decreases temps@.len() - i,
    {
        proof {
            assert(temp_views(temps@).take(i + 1).drop_last() =~= temp_views(temps@).take(
                i as int,
            ));
            assert(temp_views(temps@).take(i + 1).last() == temps@[i as int]@);
        }
        if temps[i].degrees > m {
            m = temps[i].degrees;
        }
        i += 1;
    }
    proof {
        assert(temp_views(temps@).take(temps@.len() as int) =~= temp_views(temps@));
    }
    m
}

/// The least reading of a sensor list, 0 when the list is empty.
pub fn min_temp_of(temps: &Vec<TempInfo>) -> (r: u32)
    ensures
        r == min_temp(temp_views(temps@)),
{
    if temps.len() == 0 {
        return 0;
    }
    let mut m: u32 = temps[0].degrees;
    let mut i: usize = 1;
    proof {
        assert(temp_views(temps@).take(1).len() == 1);
        assert(temp_views(temps@).take(1)[0] == temps@[0]@);
    }
    while i < temps.len()
        invariant
            1 <= i <= temps@.len(),
            m == min_temp(temp_views(temps@).take(i as int)),
        decreases temps@.len() - i,
    {
        proof {
            assert(temp_views(temps@).take(i + 1).drop_last() =~= temp_views(temps@).take(
                i as int,
            ));
            assert(temp_views(temps@).take(i + 1).last() == temps@[i as int]@);
        }
        if temps[i].degrees < m {
            m = temps[i].degrees;
        }
        i += 1;
    }
    proof {
        assert(temp_views(temps@).take(temps@.len() as int) =~= temp_views(temps@));
    }
    m
}

/// Keeps one volume per name: the first occurrence's position, the last
/// occurrence's free space (a volume listed twice is taken to have been
/// re-read, so the later figure wins).
pub fn dedupe_disks(v: &Vec<DiskInfo>) -> (r: Vec<DiskInfo>)
    ensures
        disk_names_unique(disk_views(r@)),
        forall|n: Seq<char>|
            #[trigger] has_disk(disk_views(r@), n) == has_disk(disk_views(v@), n),
        forall|k: int|
            0 <= k < r@.len() ==> disk_views(r@)[k].free_bytes == last_free(
                disk_views(v@),
                disk_views(r@)[k].name,
            ),
{
    let mut out: Vec<DiskInfo> = Vec::new();
    let mut i: usize = 0;
    proof {
        assert(disk_views(v@.take(0)) =~= Seq::<DiskV>::empty());
    }
    while i < v.len()
        invariant
            i <= v@.len(),
            disk_names_unique(disk_views(out@)),
            forall|n: Seq<char>|
                #[trigger] has_disk(disk_views(out@), n) == has_disk(
                    disk_views(v@.take(i as int)),
                    n,
                ),
            forall|k: int|
                0 <= k < out@.len() ==> disk_views(out@)[k].free_bytes == last_free(
                    disk_views(v@.take(i as int)),
                    disk_views(out@)[k].name,
                ),
        decreases v@.len() - i,
    {
        let ghost prefix = disk_views(v@.take(i as int));
        let ghost next = disk_views(v@.take(i + 1));
        let ghost xv = v@[i as int]@;
        proof {
            assert(next.drop_last() =~= prefix);
            assert(next.last() == xv);
            assert forall|n: Seq<char>| #[trigger] last_free(next, n) == (if n == xv.name {
                xv.free_bytes
            } else {
                last_free(prefix, n)
            }) by {
                assert(last_free(next, n) == if next.last().name == n {
                    next.last().free_bytes
                } else {
                    last_free(next.drop_last(), n)
                });
            }
            assert forall|n: Seq<char>| #[trigger] has_disk(next, n) == (n == xv.name
                || has_disk(prefix, n)) by {
                if n == xv.name {
                    assert(next[next.len() - 1].name == n);
                }
                if has_disk(prefix, n) {
                    let w = choose|w: int| 0 <= w < prefix.len() && prefix[w].name == n;
                    assert(next[w].name == n);
                }
                if has_disk(next, n) && n != xv.name {
                    let w = choose|w: int| 0 <= w < next.len() && next[w].name == n;
                    assert(w < next.len() - 1);
                    assert(prefix[w].name == n);
                }
            }
        }
        let x = DiskInfo { name: v[i].name.clone(), free_bytes: v[i].free_bytes };
        proof {
            assert(x@ == xv);
        }
        let mut j: usize = 0;
        let mut found = false;
        while j < out.len() && !found
            invariant
                j <= out@.len(),
                !found ==> forall|k: int| 0 <= k < j ==> disk_views(out@)[k].name != x@.name,
                found ==> j < out@.len() && disk_views(out@)[j as int].name == x@.name,
            decreases out@.len() - j + (if found {
                0int
            } else {
                1int
            }),
    {
            if out[j].name == x.name {
                found = true;
            } else {
                proof {
                    assert(disk_views(out@)[j as int].name == out@[j as int]@.name);
                }
                j += 1;
            }
        }
        if found {
            let ghost pre = out@;
            out.set(j, x);
            proof {
                assert(out@ =~= pre.update(j as int, x));
                assert forall|k: int|
                    0 <= k < out@.len() implies disk_views(out@)[k] == (if k == j {
                    xv
                } else {
                    disk_views(pre)[k]
                }) by {}
                assert forall|k: int|
                    0 <= k < out@.len() implies disk_views(out@)[k].name == disk_views(
                    pre,
                )[k].name by {
                    if k != j {
                    } else {
                        assert(disk_views(pre)[j as int].name == x@.name);
                    }
                }
                assert(disk_names_unique(disk_views(out@)));
                assert forall|n: Seq<char>| #[trigger] has_disk(disk_views(out@), n) == has_disk(
                    next,
                    n,
                ) by {
                    assert(has_disk(disk_views(pre), n) == has_disk(prefix, n));
                    if has_disk(disk_views(out@), n) {
                        let w = choose|w: int|
                            0 <= w < out@.len() && disk_views(out@)[w].name == n;
                        assert(disk_views(pre)[w].name == n);
                        assert(has_disk(disk_views(pre), n));
                    }
                    if has_disk(disk_views(pre), n) {
                        let w = choose|w: int|
                            0 <= w < pre.len() && disk_views(pre)[w].name == n;
                        assert(disk_views(out@)[w].name == n);
                        assert(has_disk(disk_views(out@), n));
                    }
                    if n == xv.name {
                        assert(disk_views(pre)[j as int].name == n);
                        assert(has_disk(disk_views(pre), n));
                    }
                }
                assert forall|k: int|
                    0 <= k < out@.len() implies disk_views(out@)[k].free_bytes == last_free(
                    next,
                    disk_views(out@)[k].name,
                ) by {
                    if k == j {
                        assert(disk_views(out@)[k] == xv);
                    } else {
                        assert(disk_views(out@)[k] == disk_views(pre)[k]);
                        if k < j {
                            assert(disk_views(pre)[k].name != disk_views(pre)[j as int].name);
                        } else {
                            assert(disk_views(pre)[j as int].name != disk_views(pre)[k].name);
                        }
                        assert(disk_views(pre)[k].name != xv.name);
                    }
                }
            }
        } else {
            let ghost pre = out@;
            out.push(x);
            proof {
                assert(out@ =~= pre.push(x));
                assert forall|k: int|
                    0 <= k < pre.len() implies disk_views(out@)[k] == disk_views(pre)[k] by {}
                assert(disk_views(out@)[pre.len() as int] == xv);
                assert forall|k: int|
                    0 <= k < pre.len() implies disk_views(pre)[k].name != xv.name by {}
                assert forall|w1: int, w2: int|
                    0 <= w1 < w2 < out@.len() implies disk_views(out@)[w1].name != disk_views(
                    out@,
                )[w2].name by {
                    if w2 < pre.len() {
                        assert(disk_views(out@)[w1] == disk_views(pre)[w1]);
                        assert(disk_views(out@)[w2] == disk_views(pre)[w2]);
                        assert(disk_views(pre)[w1].name != disk_views(pre)[w2].name);
                    } else {
                        assert(disk_views(out@)[w1] == disk_views(pre)[w1]);
                        assert(disk_views(out@)[w2] == xv);
                        assert(disk_views(pre)[w1].name != xv.name);
                    }
                }
                assert(disk_names_unique(disk_views(out@)));
                assert forall|n: Seq<char>| #[trigger] has_disk(disk_views(out@), n) == has_disk(
                    next,
                    n,
                ) by {
                    assert(has_disk(disk_views(pre), n) == has_disk(prefix, n));
                    if has_disk(disk_views(out@), n) && n != xv.name {
                        let w = choose|w: int|
                            0 <= w < out@.len() && disk_views(out@)[w].name == n;
                        assert(w < pre.len());
                        assert(disk_views(pre)[w].name == n);
                        assert(has_disk(disk_views(pre), n));
                    }
                    if has_disk(disk_views(pre), n) {
                        let w = choose|w: int|
                            0 <= w < pre.len() && disk_views(pre)[w].name == n;
                        assert(disk_views(out@)[w].name == n);
                        assert(has_disk(disk_views(out@), n));
                    }
                    if n == xv.name {
                        assert(disk_views(out@)[pre.len() as int].name == n);
                        assert(has_disk(disk_views(out@), n));
                    }
                }
                assert forall|k: int|
                    0 <= k < out@.len() implies disk_views(out@)[k].free_bytes == last_free(
                    next,
                    disk_views(out@)[k].name,
                ) by {
                    if k < pre.len() {
                        assert(disk_views(out@)[k] == disk_views(pre)[k]);
                        assert(disk_views(pre)[k].name != xv.name);
                    } else {
                        assert(disk_views(out@)[k] == xv);
                    }
                }
            }
        }
        i += 1;
    }
    proof {
        assert(v@.take(v@.len() as int) =~= v@);
    }
    out
}

/// The position before the first entry whose name orders strictly after
/// `name`, in a volume list sorted by name.
fn disk_insert_pos(out: &Vec<DiskInfo>, name: &String) -> (pos: usize)
    ensures
        pos <= out@.len(),
        forall|k: int| 0 <= k < pos ==> lex_le(disk_views(out@)[k].name, name@),
        pos < out@.len() ==> lex_lt(name@, disk_views(out@)[pos as int].name),
{
    let mut pos: usize = 0;
    while pos < out.len()
        invariant
            pos <= out@.len(),
            forall|k: int| 0 <= k < pos ==> lex_le(disk_views(out@)[k].name, name@),
        decreases out@.len() - pos,
    {
        if str_lt(name.as_str(), out[pos].name.as_str()) {
            return pos;
        }
        proof {
            lemma_lex_total(name@, disk_views(out@)[pos as int].name);
            assert(out@[pos as int]@.name == disk_views(out@)[pos as int].name);
        }
        pos += 1;
    }
    pos
}

/// The position before the first entry whose label orders strictly after
/// `label`, in a sensor list sorted by label.
fn temp_insert_pos(out: &Vec<TempInfo>, label: &String) -> (pos: usize)
    ensures
        pos <= out@.len(),
        forall|k: int| 0 <= k < pos ==> lex_le(temp_views(out@)[k].label, label@),
        pos < out@.len() ==> lex_lt(label@, temp_views(out@)[pos as int].label),
{
    let mut pos: usize = 0;
    while pos < out.len()
        invariant
            pos <= out@.len(),
            forall|k: int| 0 <= k < pos ==> lex_le(temp_views(out@)[k].label, label@),
        decreases out@.len() - pos,
    {
        if str_lt(label.as_str(), out[pos].label.as_str()) {
            return pos;
        }
        proof {
            lemma_lex_total(label@, temp_views(out@)[pos as int].label);
            assert(out@[pos as int]@.label == temp_views(out@)[pos as int].label);
        }
        pos += 1;
    }
    pos
}

/// Sorts a volume list by name, keeping exactly the same entries.
pub fn sort_disks(v: Vec<DiskInfo>) -> (r: Vec<DiskInfo>)
    ensures
        disks_sorted(disk_views(r@)),
        r@.to_multiset() == v@.to_multiset(),
{
    let mut out: Vec<DiskInfo> = Vec::new();
    let mut i: usize = 0;
    proof {
        assert(v@.take(0) =~= Seq::<DiskInfo>::empty());
        assert(out@.to_multiset() =~= v@.take(0).to_multiset());
    }
    while i < v.len()
        invariant
            i <= v@.len(),
            disks_sorted(disk_views(out@)),
            out@.to_multiset() == v@.take(i as int).to_multiset(),
        decreases v@.len() - i,
    {
        let x = DiskInfo { name: v[i].name.clone(), free_bytes: v[i].free_bytes };
        proof {
            assert(x == v@[i as int]);
        }
        let pos = disk_insert_pos(&out, &x.name);
        let ghost pre = out@;
        let ghost inserted = x@;
        let ghost p = pos as int;
        out.insert(pos, x);
        proof {
            assert(out@ =~= pre.insert(p, v@[i as int]));
            assert forall|k: int| 0 <= k < out@.len() implies disk_views(out@)[k] == (if k < p {
                disk_views(pre)[k]
            } else if k == p {
                inserted
            } else {
                disk_views(pre)[k - 1]
            }) by {
                if k < p {
                    assert(out@[k] == pre[k]);
                } else if k == p {
                    assert(out@[k] == v@[i as int]);
                } else {
                    assert(out@[k] == pre[k - 1]);
                }
            }
            assert forall|a: int, b: int|
                0 <= a < b < out@.len() implies lex_le(
                disk_views(out@)[a].name,
                disk_views(out@)[b].name,
            ) by {
                if b < p {
                } else if a < p && b == p {
                    assert(lex_le(disk_views(pre)[a].name, inserted.name));
                } else if a < p && b > p {
                    assert(lex_le(disk_views(pre)[a].name, disk_views(pre)[b - 1].name));
                } else if a == p {
                    assert(lex_lt(inserted.name, disk_views(pre)[p].name));
                    if b - 1 > p {
                        lemma_lex_le_trans(
                            inserted.name,
                            disk_views(pre)[p].name,
                            disk_views(pre)[b - 1].name,
                        );
                    }
                } else {
                    assert(lex_le(disk_views(pre)[a - 1].name, disk_views(pre)[b - 1].name));
                }
            }
            assert(v@.take(i + 1) =~= v@.take(i as int).push(v@[i as int]));
            assert(out@.to_multiset() =~= v@.take(i + 1).to_multiset());
        }
        i += 1;
    }
    proof {
        assert(v@.take(v@.len() as int) =~= v@);
    }
    out
}

/// Sorts a sensor list by label, keeping exactly the same entries.
pub fn sort_temps(v: Vec<TempInfo>) -> (r: Vec<TempInfo>)
    ensures
        temps_sorted(temp_views(r@)),
        r@.to_multiset() == v@.to_multiset(),
{
    let mut out: Vec<TempInfo> = Vec::new();
    let mut i: usize = 0;
    proof {
        assert(v@.take(0) =~= Seq::<TempInfo>::empty());
        assert(out@.to_multiset() =~= v@.take(0).to_multiset());
    }
    while i < v.len()
        invariant
            i <= v@.len(),
            temps_sorted(temp_views(out@)),
            out@.to_multiset() == v@.take(i as int).to_multiset(),
        decreases v@.len() - i,
    {
        let x = TempInfo { label: v[i].label.clone(), degrees: v[i].degrees };
        proof {
            assert(x == v@[i as int]);
        }
        let pos = temp_insert_pos(&out, &x.label);
        let ghost pre = out@;
        let ghost inserted = x@;
        let ghost p = pos as int;
        out.insert(pos, x);
        proof {
            assert(out@ =~= pre.insert(p, v@[i as int]));
            assert forall|k: int| 0 <= k < out@.len() implies temp_views(out@)[k] == (if k < p {
                temp_views(pre)[k]
            } else if k == p {
                inserted
            } else {
                temp_views(pre)[k - 1]
            }) by {
                if k < p {
                    assert(out@[k] == pre[k]);
                } else if k == p {
                    assert(out@[k] == v@[i as int]);
                } else {
                    assert(out@[k] == pre[k - 1]);
                }
            }
            assert forall|a: int, b: int|
                0 <= a < b < out@.len() implies lex_le(
                temp_views(out@)[a].label,
                temp_views(out@)[b].label,
            ) by {
                if b < p {
                } else if a < p && b == p {
                    assert(lex_le(temp_views(pre)[a].label, inserted.label));
                } else if a < p && b > p {
                    assert(lex_le(temp_views(pre)[a].label, temp_views(pre)[b - 1].label));
                } else if a == p {
                    assert(lex_lt(inserted.label, temp_views(pre)[p].label));
                    if b - 1 > p {
                        lemma_lex_le_trans(
                            inserted.label,
                            temp_views(pre)[p].label,
                            temp_views(pre)[b - 1].label,
                        );
                    }
                } else {
                    assert(lex_le(temp_views(pre)[a - 1].label, temp_views(pre)[b - 1].label));
                }
            }
            assert(v@.take(i + 1) =~= v@.take(i as int).push(v@[i as int]));
            assert(out@.to_multiset() =~= v@.take(i + 1).to_multiset());
        }
        i += 1;
    }
    proof {
        assert(v@.take(v@.len() as int) =~= v@);
    }
    out
}

/// A volume list that keeps exactly the entries of a list with unique names
/// has unique names too.
pub proof fn lemma_permutation_keeps_unique_names(a: Seq<DiskInfo>, b: Seq<DiskInfo>)
    requires
        a.to_multiset() == b.to_multiset(),
        disk_names_unique(disk_views(a)),
    ensures
        disk_names_unique(disk_views(b)),
{
    broadcast use vstd::seq_lib::group_to_multiset_ensures;

    assert(a.no_duplicates()) by {
        assert forall|i: int, j: int|
            0 <= i < a.len() && 0 <= j < a.len() && i != j implies a[i] != a[j] by {
            if a[i] == a[j] {
                if i < j {
                    assert(disk_views(a)[i].name != disk_views(a)[j].name);
                } else {
                    assert(disk_views(a)[j].name != disk_views(a)[i].name);
                }
            }
        }
    }
    a.lemma_multiset_has_no_duplicates();
    assert(forall|x: DiskInfo| b.to_multiset().contains(x) ==> b.to_multiset().count(x) == 1);
    b.lemma_multiset_has_no_duplicates_conv();
    assert forall|i: int, j: int|
        0 <= i < j < b.len() implies disk_views(b)[i].name != disk_views(b)[j].name by {
        if disk_views(b)[i].name == disk_views(b)[j].name {
            assert(b.contains(b[i]));
            assert(b.contains(b[j]));
            assert(a.to_multiset().count(b[i]) > 0);
            assert(a.to_multiset().count(b[j]) > 0);
            assert(a.contains(b[i]));
            assert(a.contains(b[j]));
            let l1 = choose|l: int| 0 <= l < a.len() && a[l] == b[i];
            let l2 = choose|l: int| 0 <= l < a.len() && a[l] == b[j];
            assert(disk_views(a)[l1].name == disk_views(b)[i].name);
            assert(disk_views(a)[l2].name == disk_views(b)[j].name);
            if l1 < l2 {
                assert(disk_views(a)[l1].name != disk_views(a)[l2].name);
            } else if l2 < l1 {
                assert(disk_views(a)[l2].name != disk_views(a)[l1].name);
            }
            assert(l1 == l2);
            assert(b[i] == b[j]);
            assert(b.no_duplicates());
        }
    }
}

/// Volume lists with the same entries list the same names.
pub proof fn lemma_permutation_keeps_names(a: Seq<DiskInfo>, b: Seq<DiskInfo>)
    requires
        a.to_multiset() == b.to_multiset(),
    ensures
        forall|n: Seq<char>|
            #[trigger] has_disk(disk_views(a), n) == has_disk(disk_views(b), n),
{
    broadcast use vstd::seq_lib::group_to_multiset_ensures;

    assert forall|n: Seq<char>| #[trigger] has_disk(disk_views(a), n) == has_disk(
        disk_views(b),
        n,
    ) by {
        if has_disk(disk_views(a), n) {
            let w = choose|w: int| 0 <= w < a.len() && disk_views(a)[w].name == n;
            assert(a.contains(a[w]));
            assert(b.to_multiset().count(a[w]) > 0);
            assert(b.contains(a[w]));
            let w2 = choose|w2: int| 0 <= w2 < b.len() && b[w2] == a[w];
            assert(disk_views(b)[w2].name == n);
        }
        if has_disk(disk_views(b), n) {
            let w = choose|w: int| 0 <= w < b.len() && disk_views(b)[w].name == n;
            assert(b.contains(b[w]));
            assert(a.to_multiset().count(b[w]) > 0);
            assert(a.contains(b[w]));
            let w2 = choose|w2: int| 0 <= w2 < a.len() && a[w2] == b[w];
            assert(disk_views(a)[w2].name == n);
        }
    }
}

/// Mapping a function over two lists with the same entries gives lists with
/// the same entries.
pub proof fn lemma_to_multiset_map<A, B>(s: Seq<A>, t: Seq<A>, f: spec_fn(A) -> B)
    requires
        s.to_multiset() == t.to_multiset(),
    ensures
        s.map_values(f).to_multiset() == t.map_values(f).to_multiset(),
    decreases s.len(),
{
    broadcast use vstd::seq_lib::group_to_multiset_ensures;
    broadcast use vstd::seq_lib::to_multiset_remove;
    broadcast use vstd::multiset::group_multiset_axioms;

    if s.len() == 0 {
        assert(s.to_multiset().len() == 0);
        assert(t.len() == 0);
        assert(s.map_values(f) =~= Seq::<B>::empty());
        assert(t.map_values(f) =~= Seq::<B>::empty());
    } else {
        let x = s.last();
        assert(s.drop_last().push(x) =~= s);
        assert(s.contains(x)) by {
            assert(s[s.len() - 1] == x);
        }
        assert(s.to_multiset().count(x) > 0);
        assert(t.contains(x));
        let w = choose|w: int| 0 <= w < t.len() && t[w] == x;
        assert(s.drop_last().to_multiset() =~= t.remove(w).to_multiset()) by {
            assert(s.to_multiset() == s.drop_last().push(x).to_multiset());
            assert(s.drop_last().push(x).to_multiset() == s.drop_last().to_multiset().insert(x));
            assert(t.remove(w).to_multiset() == t.to_multiset().remove(t[w]));
        }
        lemma_to_multiset_map(s.drop_last(), t.remove(w), f);
        assert(t.remove(w).map_values(f) =~= t.map_values(f).remove(w));
        assert(s.map_values(f) =~= s.drop_last().map_values(f).push(f(x)));
        assert(t.map_values(f)[w] == f(x));
        assert(t.map_values(f).contains(f(x))) by {
            assert(t.map_values(f)[w] == f(x));
        }
        assert(t.map_values(f).to_multiset().count(f(x)) > 0);
        assert(s.map_values(f).to_multiset() == s.drop_last().map_values(f).to_multiset().insert(
            f(x),
        ));
        assert(t.map_values(f).remove(w).to_multiset() == t.map_values(f).to_multiset().remove(
            f(x),
        ));
        assert(t.map_values(f).to_multiset().remove(f(x)).insert(f(x)) =~= t.map_values(
            f,
        ).to_multiset());
    }
}

/// One round of readings of every sampled quantity, as plain values. The
/// rest of the library is a pure function of a snapshot, so everything below
/// the trusted sampling layer is verified for every possible reading.
#[derive(Debug)]
pub struct Snapshot {
    pub memory: MemoryStats,
    pub disks: Vec<DiskInfo>,
    pub temps: Vec<TempInfo>,
}

/// Mathematical value of a [`Snapshot`].
pub struct SnapV {
    pub memory: MemoryStats,
    pub disks: Seq<DiskV>,
    pub temps: Seq<TempV>,
}

impl View for Snapshot {
    type V = SnapV;

    open spec fn view(&self) -> SnapV {
        SnapV {
            memory: self.memory,
            disks: disk_views(self.disks@),
            temps: temp_views(self.temps@),
        }
    }
}

impl Snapshot {
    /// Reads every sampled quantity once. The volume list is deduplicated
    /// and sorted by name, the sensor list sorted by label, so the snapshot
    /// is a deterministic rendering of what the operating system reported.
    pub fn now() -> (s: Snapshot)
        ensures
            disk_names_unique(s@.disks),
            disks_sorted(s@.disks),
            temps_sorted(s@.temps),
    {
        let memory = sample_memory_raw();
        let raw_disks = sample_disks_raw();
        let unique = dedupe_disks(&raw_disks);
        let ghost unique_seq = unique@;
        let disks = sort_disks(unique);
        proof {
            lemma_permutation_keeps_unique_names(unique_seq, disks@);
        }
        let temps = sort_temps(sample_temps_raw());
        Snapshot { memory, disks, temps }
    }
}


/// Relies on `sysinfo::System::refresh_memory` and the memory and swap
/// getters of `sysinfo::System`: each figure is a byte count of the machine
/// this process runs on.
#[verifier::external_body]
fn sample_memory_raw() -> MemoryStats {
    let mut sys = sysinfo::System::new();
    sys.refresh_memory();
    MemoryStats {
        total: sys.total_memory(),
        used: sys.used_memory(),
        free: sys.free_memory(),
        available: sys.available_memory(),
        swap_total: sys.total_swap(),
        swap_used: sys.used_swap(),
        swap_free: sys.free_swap(),
    }
}

/// Relies on `sysinfo::Disks::new_with_refreshed_list`: one entry per mounted
/// volume, in whatever order the operating system enumerates them, with
/// `Disk::name` and `Disk::available_space` (bytes).
#[verifier::external_body]
fn sample_disks_raw() -> Vec<DiskInfo> {
    let disks = sysinfo::Disks::new_with_refreshed_list();
    let mut out = Vec::new();
    for d in disks.list() {
        out.push(
            DiskInfo {
                name: d.name().to_string_lossy().into_owned(),
                free_bytes: d.available_space(),
            },
        );
    }
    out
}

/// Relies on `sysinfo::Components::new_with_refreshed_list`: one entry per
/// hardware sensor, with `Component::label` and `Component::temperature`
/// (degrees Celsius; a sensor without a reading is taken as 0).
#[verifier::external_body]
fn sample_temps_raw() -> Vec<TempInfo> {
    let comps = sysinfo::Components::new_with_refreshed_list();
    let mut out = Vec::new();
    for c in comps.list() {
        let degrees = match c.temperature() {
            Some(t) => t as u32,
            None => 0,
        };
        out.push(TempInfo { label: c.label().to_string(), degrees });
    }
    out
}

} // verus!
