//! The selection store: the ordered list of watched metrics.
//!
//! Entries are unique by key. A toggle-on samples the metric once and
//! appends it; a toggle-on of a present key is a no-op; a toggle-off removes
//! the entry. The periodic tick re-renders every label in place and never
//! adds or removes an entry. The store is also the shape in which the
//! watched set is persisted, so its entry list is a plain public field.

use vstd::prelude::*;

use crate::sampler::Snapshot;
use crate::stats::{format_stat, label_of, Stat, StatKey, StatType, StatView};

verus! {

/// No two entries share a key.
pub open spec fn unique_keys(s: Seq<StatView>) -> bool {
    forall|i: int, j: int| 0 <= i < j < s.len() ==> s[i].stat_type != s[j].stat_type
}

/// Some entry carries the key `k`.
pub open spec fn has_key(s: Seq<StatView>, k: StatKey) -> bool {
    exists|i: int| 0 <= i < s.len() && s[i].stat_type == k
}

/// How many entries carry the key `k`.
pub open spec fn count_key(s: Seq<StatView>, k: StatKey) -> nat
    decreases s.len(),
{
    if s.len() == 0 {
        0
    } else {
        (if s.last().stat_type == k {
            1nat
        } else {
            0nat
        }) + count_key(s.drop_last(), k)
    }
}

/// The list without its entries of key `k`, order kept.
pub open spec fn remove_key(s: Seq<StatView>, k: StatKey) -> Seq<StatView>
    decreases s.len(),
{
    if s.len() == 0 {
        Seq::empty()
    } else {
        let rest = remove_key(s.drop_last(), k);
        if s.last().stat_type == k {
            rest
        } else {
            rest.push(s.last())
        }
    }
}

/// The list after a toggle-on of `k`: unchanged when `k` is present, else
/// with a visible entry of label `label` appended.
pub open spec fn toggle_on(s: Seq<StatView>, k: StatKey, label: Seq<char>) -> Seq<StatView> {
    if has_key(s, k) {
        s
    } else {
        s.push(StatView { stat_type: k, show: true, label })
    }
}

/// The list after a toggle of `k` towards `desired` visibility.
pub open spec fn spec_toggle(
    s: Seq<StatView>,
    k: StatKey,
    desired: bool,
    label: Seq<char>,
) -> Seq<StatView> {
    if desired {
        toggle_on(s, k, label)
    } else {
        remove_key(s, k)
    }
}

/// The labels of the visible entries, in store order.
pub open spec fn visible_labels_of(s: Seq<StatView>) -> Seq<Seq<char>>
    decreases s.len(),
{
    if s.len() == 0 {
        Seq::empty()
    } else {
        let rest = visible_labels_of(s.drop_last());
        if s.last().show {
            rest.push(s.last().label)
        } else {
            rest
        }
    }
}

/// How many entries are visible.
pub open spec fn count_visible(s: Seq<StatView>) -> nat
    decreases s.len(),
{
    if s.len() == 0 {
        0
    } else {
        (if s.last().show {
            1nat
        } else {
            0nat
        }) + count_visible(s.drop_last())
    }
}

/// The watched-metric list, in panel display order. Loaded and saved
/// verbatim by the host's configuration store, hence the plain field.
#[derive(Debug, Clone)]
pub struct VitalsAppletConfig {
    pub stats: Vec<Stat>,
}

impl View for VitalsAppletConfig {
    type V = Seq<StatView>;

    open spec fn view(&self) -> Seq<StatView> {
        self.stats@.map_values(|s: Stat| s@)
    }
}

impl Default for VitalsAppletConfig {
    fn default() -> (r: Self)
        ensures
            r@ == Seq::<StatView>::empty(),
    {
        let r = VitalsAppletConfig { stats: Vec::new() };
        proof {
            assert(r@ =~= Seq::<StatView>::empty());
        }
        r
    }
}

impl VitalsAppletConfig {
    /// The store's invariant: entries are unique by key.
    pub open spec fn wf(&self) -> bool {
        unique_keys(self@)
    }

    /// Decides the invariant, for a list loaded from outside.
    pub fn is_wf(&self) -> (r: bool)
        ensures
            r == self.wf(),
    {
        let mut i: usize = 0;
        while i < self.stats.len()
            invariant
                i <= self@.len(),
                forall|a: int, b: int|
                    0 <= a < b < self@.len() && a < i ==> self@[a].stat_type != self@[b].stat_type,
            decreases self@.len() - i,
        {
            let mut j: usize = i + 1;
            while j < self.stats.len()
                invariant
                    i < j <= self@.len(),
                    forall|b: int| i < b < j ==> self@[i as int].stat_type != self@[b].stat_type,
                decreases self@.len() - j,
            {
                if self.stats[i].stat_type == self.stats[j].stat_type {
                    proof {
                        assert(self@[i as int].stat_type == self@[j as int].stat_type);
                    }
                    return false;
                }
                proof {
                    assert(self@[i as int] == self.stats@[i as int]@);
                    assert(self@[j as int] == self.stats@[j as int]@);
                }
                j += 1;
            }
            i += 1;
        }
        true
    }

    /// Whether the key is watched at all; in this model a watched metric is
    /// also the one offered as checked in the browse popup.
    pub fn is_checked(&self, stat_type: &StatType) -> (r: bool)
        ensures
            r == has_key(self@, stat_type@),
    {
        let mut i: usize = 0;
        while i < self.stats.len()
            invariant
                i <= self@.len(),
                forall|j: int| 0 <= j < i ==> self@[j].stat_type != stat_type@,
            decreases self@.len() - i,
        {
            if self.stats[i].stat_type == *stat_type {
                proof {
                    assert(self@[i as int].stat_type == stat_type@);
                }
                return true;
            }
            proof {
                assert(self@[i as int] == self.stats@[i as int]@);
            }
            i += 1;
        }
        false
    }

    /// Applies one toggle event. Turning a key on samples its value now and
    /// appends a visible entry, once; turning it off removes its entry;
    /// both are idempotent.
    pub fn toggle(&mut self, stat_type: StatType, desired: bool, snap: &Snapshot)
        requires
            old(self).wf(),
        ensures
            final(self).wf(),
            final(self)@ == spec_toggle(
                old(self)@,
                stat_type@,
                desired,
                label_of(stat_type@, snap@),
            ),
    {
        let ghost k = stat_type@;
        let ghost pre = self@;
        if desired {
            if !self.is_checked(&stat_type) {
                let label = format_stat(&stat_type, snap);
                let ghost lv = label@;
                self.stats.push(Stat { stat_type, show: true, label });
                proof {
                    assert(self@ =~= pre.push(
                        StatView { stat_type: k, show: true, label: lv },
                    ));
                    assert forall|a: int, b: int|
                        0 <= a < b < self@.len() implies self@[a].stat_type
                        != self@[b].stat_type by {
                        if b < pre.len() {
                        } else {
                            assert(self@[a] == pre[a]);
                            assert(!has_key(pre, k));
                        }
                    }
                }
            }
        } else {
            let mut i: usize = 0;
            let mut found = false;
            while i < self.stats.len() && !found
                invariant
                    i <= self@.len(),
                    self@ == pre,
                    !found ==> forall|j: int| 0 <= j < i ==> pre[j].stat_type != stat_type@,
                    found ==> i < pre.len() && pre[i as int].stat_type == stat_type@,
                decreases self@.len() - i + (if found {
                    0int
                } else {
                    1int
                }),
            {
                if self.stats[i].stat_type == stat_type {
                    proof {
                        assert(self@[i as int].stat_type == stat_type@);
                    }
                    found = true;
                } else {
                    proof {
                        assert(self@[i as int] == self.stats@[i as int]@);
                    }
                    i += 1;
                }
            }
            if found {
                let ghost idx = i as int;
                self.stats.remove(i);
                proof {
                    assert(self@ =~= pre.remove(idx));
                    assert forall|j: int|
                        0 <= j < pre.len() && j != idx implies pre[j].stat_type != k by {
                        if j < idx {
                            assert(pre[j].stat_type != pre[idx].stat_type);
                        } else {
                            assert(pre[idx].stat_type != pre[j].stat_type);
                        }
                    }
                    lemma_remove_at_key(pre, k, idx);
                    lemma_remove_key_unique(pre, k);
                }
            } else {
                proof {
                    assert(!has_key(pre, k));
                    lemma_remove_key_absent(pre, k);
                }
            }
        }
    }

    /// Applies one refresh tick: every entry's label is re-rendered from the
    /// snapshot; no entry is added, removed, reordered, hidden or shown.
    pub fn refresh(&mut self, snap: &Snapshot)
        ensures
            final(self)@.len() == old(self)@.len(),
            forall|i: int|
                0 <= i < old(self)@.len() ==> {
                    &&& final(self)@[i].stat_type == old(self)@[i].stat_type
                    &&& final(self)@[i].show == old(self)@[i].show
                    &&& final(self)@[i].label == label_of(old(self)@[i].stat_type, snap@)
                },
            old(self).wf() ==> final(self).wf(),
    {
        let mut i: usize = 0;
        while i < self.stats.len()
            invariant
                i <= self@.len(),
                self@.len() == old(self)@.len(),
                forall|j: int| i <= j < self@.len() ==> self@[j] == old(self)@[j],
                forall|j: int|
                    0 <= j < i ==> {
                        &&& self@[j].stat_type == old(self)@[j].stat_type
                        &&& self@[j].show == old(self)@[j].show
                        &&& self@[j].label == label_of(old(self)@[j].stat_type, snap@)
                    },
            decreases self@.len() - i,
        {
            proof {
                assert(self@[i as int] == self.stats@[i as int]@);
            }
            let label = format_stat(&self.stats[i].stat_type, snap);
            let stat_type = self.stats[i].stat_type.clone();
            let show = self.stats[i].show;
            let ghost pre = self@;
            self.stats.set(i, Stat { stat_type, show, label });
            proof {
                assert(self@ =~= pre.update(
                    i as int,
                    StatView {
                        stat_type: pre[i as int].stat_type,
                        show: pre[i as int].show,
                        label: label_of(pre[i as int].stat_type, snap@),
                    },
                ));
            }
            i += 1;
        }
        proof {
            if old(self).wf() {
                assert forall|a: int, b: int|
                    0 <= a < b < self@.len() implies self@[a].stat_type != self@[b].stat_type by {
                    assert(old(self)@[a].stat_type != old(self)@[b].stat_type);
                }
            }
        }
    }

    /// The labels of the visible entries, in store order: what the compact
    /// panel strip renders.
    pub fn visible_labels(&self) -> (r: Vec<String>)
        ensures
            r@.map_values(|l: String| l@) == visible_labels_of(self@),
    {
        let mut out: Vec<String> = Vec::new();
        let mut i: usize = 0;
        proof {
            assert(self@.take(0) =~= Seq::<StatView>::empty());
            assert(out@.map_values(|l: String| l@) =~= visible_labels_of(self@.take(0)));
        }
        while i < self.stats.len()
            invariant
                i <= self@.len(),
                out@.map_values(|l: String| l@) == visible_labels_of(self@.take(i as int)),
            decreases self@.len() - i,
        {
            let ghost pre = out@;
            proof {
                assert(self@.take(i + 1).drop_last() =~= self@.take(i as int));
                assert(self@.take(i + 1).last() == self@[i as int]);
                assert(self@[i as int] == self.stats@[i as int]@);
            }
            if self.stats[i].show {
                out.push(self.stats[i].label.clone());
                proof {
                    assert(out@.map_values(|l: String| l@) =~= pre.map_values(
                        |l: String| l@,
                    ).push(self@[i as int].label));
                }
            }
            i += 1;
        }
        proof {
            assert(self@.take(self@.len() as int) =~= self@);
        }
        out
    }
}

/// One quantity offered in the browse popup: the key its toggler would
/// toggle, its display name, and its bare rendered value.
#[derive(Debug, Clone)]
pub struct BrowseEntry {
    pub stat_type: StatType,
    pub name: String,
    pub value: String,
}

/// Mathematical value of a [`BrowseEntry`].
pub struct BrowseEntryV {
    pub stat_type: StatKey,
    pub name: Seq<char>,
    pub value: Seq<char>,
}

impl View for BrowseEntry {
    type V = BrowseEntryV;

    open spec fn view(&self) -> BrowseEntryV {
        BrowseEntryV { stat_type: self.stat_type@, name: self.name@, value: self.value@ }
    }
}

/// One rendered row of the browse popup: display name, parenthesised value
/// with its unit, and whether the row's toggler shows as checked.
#[derive(Debug, Clone)]
pub struct BrowseRow {
    pub name: String,
    pub value: String,
    pub checked: bool,
}

/// Mathematical value of a [`BrowseRow`].
pub struct BrowseRowV {
    pub name: Seq<char>,
    pub value: Seq<char>,
    pub checked: bool,
}

impl View for BrowseRow {
    type V = BrowseRowV;

    open spec fn view(&self) -> BrowseRowV {
        BrowseRowV { name: self.name@, value: self.value@, checked: self.checked }
    }
}

/// Some entry carries the key `k` and is visible.
pub open spec fn checked_in(s: Seq<StatView>, k: StatKey) -> bool {
    exists|i: int| 0 <= i < s.len() && s[i].stat_type == k && s[i].show
}

/// The unit shown beside a browse value, keyed on the metric's tag.
pub open spec fn browse_unit(k: StatKey) -> Seq<char> {
    match k {
        StatKey::Ram => " GB"@,
        StatKey::Disk(_) => " GB"@,
        _ => " °C"@,
    }
}

/// A browse value as displayed: parenthesised, with its unit.
pub open spec fn browse_value(k: StatKey, v: Seq<char>) -> Seq<char> {
    "("@ + v + browse_unit(k) + ")"@
}

impl VitalsAppletConfig {
    /// Whether the key is watched and visible: the state a browse row's
    /// toggler displays.
    pub fn is_shown(&self, stat_type: &StatType) -> (r: bool)
        ensures
            r == checked_in(self@, stat_type@),
    {
        let mut i: usize = 0;
        while i < self.stats.len()
            invariant
                i <= self@.len(),
                forall|j: int|
                    0 <= j < i ==> !(self@[j].stat_type == stat_type@ && self@[j].show),
            decreases self@.len() - i,
        {
            if self.stats[i].stat_type == *stat_type && self.stats[i].show {
                proof {
                    assert(self@[i as int].stat_type == stat_type@ && self@[i as int].show);
                }
                return true;
            }
            proof {
                assert(self@[i as int] == self.stats@[i as int]@);
            }
            i += 1;
        }
        false
    }

    /// Renders the browse rows for a list of offered quantities: each name
    /// kept, each value parenthesised with the unit of its tag, each
    /// checked state read from the store.
    pub fn stat_list(&self, entries: &Vec<BrowseEntry>) -> (r: Vec<BrowseRow>)
        ensures
            r@.len() == entries@.len(),
            forall|i: int|
                0 <= i < entries@.len() ==> {
                    &&& r@[i]@.name == entries@[i]@.name
                    &&& r@[i]@.value == browse_value(
                        entries@[i]@.stat_type,
                        entries@[i]@.value,
                    )
                    &&& r@[i]@.checked == checked_in(self@, entries@[i]@.stat_type)
                },
    {
        let mut out: Vec<BrowseRow> = Vec::new();
        let mut i: usize = 0;
        while i < entries.len()
            invariant
                i <= entries@.len(),
                out@.len() == i,
                forall|k: int|
                    0 <= k < i ==> {
                        &&& out@[k]@.name == entries@[k]@.name
                        &&& out@[k]@.value == browse_value(
                            entries@[k]@.stat_type,
                            entries@[k]@.value,
                        )
                        &&& out@[k]@.checked == checked_in(self@, entries@[k]@.stat_type)
                    },
            decreases entries@.len() - i,
        {
            let checked = self.is_shown(&entries[i].stat_type);
            let mut v = String::from_str("(");
            v.append(entries[i].value.as_str());
            match &entries[i].stat_type {
                StatType::Ram => v.append(" GB"),
                StatType::Disk(_) => v.append(" GB"),
                _ => v.append(" °C"),
            }
            v.append(")");
            proof {
                assert(v@ =~= browse_value(
                    entries@[i as int]@.stat_type,
                    entries@[i as int]@.value,
                ));
            }
            out.push(BrowseRow { name: entries[i].name.clone(), value: v, checked });
            i += 1;
        }
        out
    }
}

/// Removing the entry at the one position holding key `k` is the same as
/// removing the key.
proof fn lemma_remove_at_key(s: Seq<StatView>, k: StatKey, i: int)
    requires
        0 <= i < s.len(),
        s[i].stat_type == k,
        forall|j: int| 0 <= j < s.len() && j != i ==> s[j].stat_type != k,
    ensures
        s.remove(i) == remove_key(s, k),
    decreases s.len(),
{
    if i == s.len() - 1 {
        assert(!has_key(s.drop_last(), k)) by {
            if has_key(s.drop_last(), k) {
                let w = choose|w: int|
                    0 <= w < s.drop_last().len() && s.drop_last()[w].stat_type == k;
                assert(s[w].stat_type == k);
                assert(false);
            }
        }
        lemma_remove_key_absent(s.drop_last(), k);
        assert(s.remove(i) =~= s.drop_last());
    } else {
        assert(s.last().stat_type != k);
        assert(s.remove(i) =~= s.drop_last().remove(i).push(s.last()));
        assert(s.drop_last()[i].stat_type == k);
        assert forall|j: int|
            0 <= j < s.drop_last().len() && j != i implies s.drop_last()[j].stat_type != k by {
            assert(s.drop_last()[j] == s[j]);
        }
        lemma_remove_at_key(s.drop_last(), k, i);
    }
}

/// A list without the key `k` is unchanged by removing `k`.
proof fn lemma_remove_key_absent(s: Seq<StatView>, k: StatKey)
    requires
        !has_key(s, k),
    ensures
        remove_key(s, k) == s,
    decreases s.len(),
{
    if s.len() == 0 {
        assert(remove_key(s, k) =~= s);
    } else {
        assert(s.last().stat_type != k) by {
            if s.last().stat_type == k {
                assert(s[s.len() - 1].stat_type == k);
                assert(false);
            }
        }
        assert(!has_key(s.drop_last(), k)) by {
            if has_key(s.drop_last(), k) {
                let w = choose|w: int|
                    0 <= w < s.drop_last().len() && s.drop_last()[w].stat_type == k;
                assert(s[w].stat_type == k);
                assert(false);
            }
        }
        lemma_remove_key_absent(s.drop_last(), k);
        assert(remove_key(s, k) =~= s);
    }
}

/// After removing the key `k`, no entry carries it.
pub proof fn lemma_remove_key_no_key(s: Seq<StatView>, k: StatKey)
    ensures
        !has_key(remove_key(s, k), k),
    decreases s.len(),
{
    if s.len() > 0 {
        lemma_remove_key_no_key(s.drop_last(), k);
        let rest = remove_key(s.drop_last(), k);
        if s.last().stat_type != k {
            assert(!has_key(rest.push(s.last()), k)) by {
                if has_key(rest.push(s.last()), k) {
                    let w = choose|w: int|
                        0 <= w < rest.push(s.last()).len() && rest.push(
                            s.last(),
                        )[w].stat_type == k;
                    if w < rest.len() {
                        assert(rest[w].stat_type == k);
                        assert(false);
                    } else {
                        assert(false);
                    }
                }
            }
        }
    }
}

/// Every key left after removing `k` was in the list before.
proof fn lemma_remove_key_subset(s: Seq<StatView>, k: StatKey, k2: StatKey)
    requires
        has_key(remove_key(s, k), k2),
    ensures
        has_key(s, k2),
    decreases s.len(),
{
    let rest = remove_key(s.drop_last(), k);
    if s.last().stat_type == k {
        lemma_remove_key_subset(s.drop_last(), k, k2);
        let w = choose|w: int|
            0 <= w < s.drop_last().len() && s.drop_last()[w].stat_type == k2;
        assert(s[w].stat_type == k2);
    } else {
        let w = choose|w: int|
            0 <= w < rest.push(s.last()).len() && rest.push(s.last())[w].stat_type == k2;
        if w < rest.len() {
            assert(rest[w].stat_type == k2);
            lemma_remove_key_subset(s.drop_last(), k, k2);
            let w2 = choose|w2: int|
                0 <= w2 < s.drop_last().len() && s.drop_last()[w2].stat_type == k2;
            assert(s[w2].stat_type == k2);
        } else {
            assert(s[s.len() - 1].stat_type == k2);
        }
    }
}

/// Removing a key keeps the remaining keys unique.
pub proof fn lemma_remove_key_unique(s: Seq<StatView>, k: StatKey)
    requires
        unique_keys(s),
    ensures
        unique_keys(remove_key(s, k)),
    decreases s.len(),
{
    if s.len() > 0 {
        assert(unique_keys(s.drop_last())) by {
            assert forall|a: int, b: int|
                0 <= a < b < s.drop_last().len() implies s.drop_last()[a].stat_type != s.drop_last(
            )[b].stat_type by {
                assert(s[a].stat_type != s[b].stat_type);
            }
        }
        lemma_remove_key_unique(s.drop_last(), k);
        let rest = remove_key(s.drop_last(), k);
        if s.last().stat_type != k {
            assert(!has_key(rest, s.last().stat_type)) by {
                if has_key(rest, s.last().stat_type) {
                    lemma_remove_key_subset(s.drop_last(), k, s.last().stat_type);
                    let w = choose|w: int|
                        0 <= w < s.drop_last().len() && s.drop_last()[w].stat_type == s.last(
                        ).stat_type;
                    assert(s[w].stat_type == s[s.len() - 1].stat_type);
                    assert(false);
                }
            }
            assert forall|a: int, b: int|
                0 <= a < b < rest.push(s.last()).len() implies rest.push(
                s.last(),
            )[a].stat_type != rest.push(s.last())[b].stat_type by {
                if b < rest.len() {
                } else {
                    assert(rest.push(s.last())[a] == rest[a]);
                    assert(rest[a].stat_type != s.last().stat_type) by {
                        if rest[a].stat_type == s.last().stat_type {
                            assert(has_key(rest, s.last().stat_type));
                            assert(false);
                        }
                    }
                }
            }
        }
    }
}

/// In a list with unique keys, a key occurs once when present and never
/// otherwise.
pub proof fn lemma_count_key_unique(s: Seq<StatView>, k: StatKey)
    requires
        unique_keys(s),
    ensures
        count_key(s, k) == (if has_key(s, k) {
            1nat
        } else {
            0nat
        }),
    decreases s.len(),
{
    if s.len() == 0 {
        assert(!has_key(s, k));
    } else {
        assert(unique_keys(s.drop_last())) by {
            assert forall|a: int, b: int|
                0 <= a < b < s.drop_last().len() implies s.drop_last()[a].stat_type != s.drop_last(
            )[b].stat_type by {
                assert(s[a].stat_type != s[b].stat_type);
            }
        }
        lemma_count_key_unique(s.drop_last(), k);
        if s.last().stat_type == k {
            assert(!has_key(s.drop_last(), k)) by {
                if has_key(s.drop_last(), k) {
                    let w = choose|w: int|
                        0 <= w < s.drop_last().len() && s.drop_last()[w].stat_type == k;
                    assert(s[w].stat_type == s[s.len() - 1].stat_type);
                    assert(false);
                }
            }
            assert(has_key(s, k)) by {
                assert(s[s.len() - 1].stat_type == k);
            }
        } else {
            assert(has_key(s, k) == has_key(s.drop_last(), k)) by {
                if has_key(s, k) {
                    let w = choose|w: int| 0 <= w < s.len() && s[w].stat_type == k;
                    assert(w != s.len() - 1);
                    assert(s.drop_last()[w].stat_type == k);
                }
                if has_key(s.drop_last(), k) {
                    let w = choose|w: int|
                        0 <= w < s.drop_last().len() && s.drop_last()[w].stat_type == k;
                    assert(s[w].stat_type == k);
                }
            }
        }
    }
}

/// Removing a key shortens the list by exactly its number of occurrences.
pub proof fn lemma_remove_key_len(s: Seq<StatView>, k: StatKey)
    ensures
        remove_key(s, k).len() + count_key(s, k) == s.len(),
    decreases s.len(),
{
    if s.len() > 0 {
        lemma_remove_key_len(s.drop_last(), k);
    }
}

/// Toggling a key on keeps the keys unique.
pub proof fn lemma_toggle_on_unique(s: Seq<StatView>, k: StatKey, label: Seq<char>)
    requires
        unique_keys(s),
    ensures
        unique_keys(toggle_on(s, k, label)),
{
    if !has_key(s, k) {
        let t = s.push(StatView { stat_type: k, show: true, label });
        assert forall|a: int, b: int|
            0 <= a < b < t.len() implies t[a].stat_type != t[b].stat_type by {
            if b < s.len() {
            } else {
                assert(t[a] == s[a]);
                assert(t[b].stat_type == k);
                assert(s[a].stat_type != k) by {
                    if s[a].stat_type == k {
                        assert(has_key(s, k));
                        assert(false);
                    }
                }
            }
        }
    }
}

/// Toggling a key on twice is the same as toggling it on once, and leaves
/// exactly one entry of that key, whatever labels the two samplings gave.
pub proof fn lemma_toggle_on_idempotent(
    s: Seq<StatView>,
    k: StatKey,
    l1: Seq<char>,
    l2: Seq<char>,
)
    requires
        unique_keys(s),
    ensures
        toggle_on(toggle_on(s, k, l1), k, l2) == toggle_on(s, k, l1),
        count_key(toggle_on(s, k, l1), k) == 1,
{
    let t = toggle_on(s, k, l1);
    assert(has_key(t, k)) by {
        if has_key(s, k) {
            let w = choose|w: int| 0 <= w < s.len() && s[w].stat_type == k;
            assert(t[w].stat_type == k);
        } else {
            assert(t[t.len() - 1].stat_type == k);
        }
    }
    lemma_toggle_on_unique(s, k, l1);
    lemma_count_key_unique(t, k);
}

/// Toggling a key off removes it: no entry of that key remains, exactly one
/// entry has gone when the key was present, and the other keys stay unique.
pub proof fn lemma_toggle_off_removes(s: Seq<StatView>, k: StatKey)
    ensures
        !has_key(remove_key(s, k), k),
        unique_keys(s) ==> unique_keys(remove_key(s, k)),
        unique_keys(s) && has_key(s, k) ==> remove_key(s, k).len() + 1 == s.len(),
        !has_key(s, k) ==> remove_key(s, k) == s,
{
    lemma_remove_key_no_key(s, k);
    if unique_keys(s) {
        lemma_remove_key_unique(s, k);
        lemma_count_key_unique(s, k);
        lemma_remove_key_len(s, k);
    }
    if !has_key(s, k) {
        lemma_remove_key_absent(s, k);
    }
}

/// The visible-label list is exactly as long as the count of visible
/// entries; its order is the store's, by construction.
pub proof fn lemma_visible_labels_len(s: Seq<StatView>)
    ensures
        visible_labels_of(s).len() == count_visible(s),
    decreases s.len(),
{
    if s.len() > 0 {
        lemma_visible_labels_len(s.drop_last());
    }
}

/// The visible-label list is the entry list filtered to the visible entries
/// and mapped to their labels: store order is preserved.
pub proof fn lemma_visible_labels_filter(s: Seq<StatView>)
    ensures
        visible_labels_of(s) == s.filter(|e: StatView| e.show).map_values(
            |e: StatView| e.label,
        ),
    decreases s.len(),
{
    reveal(Seq::filter);
    if s.len() == 0 {
        assert(visible_labels_of(s) =~= s.filter(|e: StatView| e.show).map_values(
            |e: StatView| e.label,
        ));
    } else {
        lemma_visible_labels_filter(s.drop_last());
        if s.last().show {
            assert(s.filter(|e: StatView| e.show).map_values(|e: StatView| e.label)
                =~= s.drop_last().filter(|e: StatView| e.show).map_values(
                |e: StatView| e.label,
            ).push(s.last().label));
        }
        assert(visible_labels_of(s) =~= s.filter(|e: StatView| e.show).map_values(
            |e: StatView| e.label,
        ));
    }
}

} // verus!
