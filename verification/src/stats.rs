//! Watchable metrics and their display labels.
//!
//! A [`StatType`] names one watchable quantity; [`label_of`] is the one
//! rendering rule for all of them, keyed on the tag. A metric whose volume
//! or sensor is absent from the snapshot renders as the empty string:
//! sampling failures degrade the label, they are never an error.

use vstd::prelude::*;

use crate::order::{lex_le, str_eq};
use crate::render::{append_gb2, append_u64, gb2, gb2_string, u64_string, udec};
use crate::sampler::{
    dedupe_disks, disk_views, has_disk, last_free, lemma_permutation_keeps_names,
    lemma_permutation_keeps_unique_names, lemma_to_multiset_map, max_temp, max_temp_of, min_temp,
    min_temp_of, sort_disks, sort_temps, temp_views, DiskInfo, DiskV, MemoryStats, SnapV,
    Snapshot, TempInfo, TempV,
};

verus! {

/// Mathematical value of a [`StatType`].
pub enum StatKey {
    Ram,
    Disk(Seq<char>),
    Temperature(Seq<char>),
    MaxTemperature,
    MinTemperature,
}

/// Names one watchable quantity: overall memory use, one volume's free
/// space, one sensor's reading, or the extreme reading over all sensors.
#[derive(Debug)]
pub enum StatType {
    Ram,
    Disk(String),
    Temperature(String),
    MaxTemperature,
    MinTemperature,
}

impl Clone for StatType {
    fn clone(&self) -> (r: Self)
        ensures
            r == *self,
    {
        match self {
            StatType::Ram => StatType::Ram,
            StatType::Disk(n) => StatType::Disk(n.clone()),
            StatType::Temperature(n) => StatType::Temperature(n.clone()),
            StatType::MaxTemperature => StatType::MaxTemperature,
            StatType::MinTemperature => StatType::MinTemperature,
        }
    }
}

impl View for StatType {
    type V = StatKey;

    open spec fn view(&self) -> StatKey {
        match self {
            StatType::Ram => StatKey::Ram,
            StatType::Disk(n) => StatKey::Disk(n@),
            StatType::Temperature(n) => StatKey::Temperature(n@),
            StatType::MaxTemperature => StatKey::MaxTemperature,
            StatType::MinTemperature => StatKey::MinTemperature,
        }
    }
}

impl PartialEq for StatType {
    fn eq(&self, other: &StatType) -> (r: bool) {
        match (self, other) {
            (StatType::Ram, StatType::Ram) => true,
            (StatType::Disk(a), StatType::Disk(b)) => str_eq(a.as_str(), b.as_str()),
            (StatType::Temperature(a), StatType::Temperature(b)) => str_eq(
                a.as_str(),
                b.as_str(),
            ),
            (StatType::MaxTemperature, StatType::MaxTemperature) => true,
            (StatType::MinTemperature, StatType::MinTemperature) => true,
            _ => false,
        }
    }
}

impl vstd::std_specs::cmp::PartialEqSpecImpl for StatType {
    open spec fn obeys_eq_spec() -> bool {
        true
    }

    open spec fn eq_spec(&self, other: &StatType) -> bool {
        self@ == other@
    }
}

/// One watched metric: its key, whether its label is pinned to the compact
/// panel strip, and the label as last rendered.
#[derive(Debug, Clone)]
pub struct Stat {
    pub stat_type: StatType,
    pub show: bool,
    pub label: String,
}

/// Mathematical value of a [`Stat`].
pub struct StatView {
    pub stat_type: StatKey,
    pub show: bool,
    pub label: Seq<char>,
}

impl View for Stat {
    type V = StatView;

    open spec fn view(&self) -> StatView {
        StatView { stat_type: self.stat_type@, show: self.show, label: self.label@ }
    }
}

/// The free space of the first volume named `n`, if any volume is.
pub open spec fn first_free(disks: Seq<DiskV>, n: Seq<char>) -> Option<u64>
    decreases disks.len(),
{
    if disks.len() == 0 {
        None
    } else if disks[0].name == n {
        Some(disks[0].free_bytes)
    } else {
        first_free(disks.skip(1), n)
    }
}

/// The reading of the first sensor labelled `n`, if any sensor is.
pub open spec fn first_degrees(temps: Seq<TempV>, n: Seq<char>) -> Option<u32>
    decreases temps.len(),
{
    if temps.len() == 0 {
        None
    } else if temps[0].label == n {
        Some(temps[0].degrees)
    } else {
        first_degrees(temps.skip(1), n)
    }
}

/// The label of the memory metric.
pub open spec fn ram_label(m: MemoryStats) -> Seq<char> {
    "RAM "@ + gb2(m.used) + " GB"@
}

/// The label of a volume metric with `free` bytes left.
pub open spec fn disk_label(free: u64) -> Seq<char> {
    "Disk "@ + gb2(free) + " GB"@
}

/// The label of a temperature metric reading `deg` degrees.
pub open spec fn temp_label(deg: u32) -> Seq<char> {
    "Temp "@ + udec(deg as nat) + " °C"@
}

/// The label of any metric under a given snapshot: the one rendering rule,
/// keyed on the metric's tag. A missing volume or sensor renders empty.
pub open spec fn label_of(k: StatKey, snap: SnapV) -> Seq<char> {
    match k {
        StatKey::Ram => ram_label(snap.memory),
        StatKey::Disk(n) => match first_free(snap.disks, n) {
            Some(f) => disk_label(f),
            None => Seq::empty(),
        },
        StatKey::Temperature(n) => match first_degrees(snap.temps, n) {
            Some(d) => temp_label(d),
            None => Seq::empty(),
        },
        StatKey::MaxTemperature => temp_label(max_temp(snap.temps)),
        StatKey::MinTemperature => temp_label(min_temp(snap.temps)),
    }
}

/// Renders the memory metric's label from one round of memory readings.
pub fn get_ram_usage(mem: &MemoryStats) -> (r: String)
    ensures
        r@ == ram_label(*mem),
{
    let mut s = String::from_str("RAM ");
    append_gb2(&mut s, mem.used);
    s.append(" GB");
    proof {
        assert(s@ =~= ram_label(*mem));
    }
    s
}

/// Renders a temperature label for a known reading.
fn temp_label_string(deg: u32) -> (r: String)
    ensures
        r@ == temp_label(deg),
{
    let mut s = String::from_str("Temp ");
    append_u64(&mut s, deg as u64);
    s.append(" °C");
    proof {
        assert(s@ =~= temp_label(deg));
    }
    s
}

/// Renders a volume metric's label from a volume list: the first volume of
/// that name decides, and a name not listed renders empty.
pub fn get_storage_usage(name: &str, disks: &Vec<DiskInfo>) -> (r: String)
    ensures
        r@ == (match first_free(crate::sampler::disk_views(disks@), name@) {
            Some(f) => disk_label(f),
            None => Seq::<char>::empty(),
        }),
{
    let ghost all = crate::sampler::disk_views(disks@);
    let mut i: usize = 0;
    proof {
        assert(all.skip(0) =~= all);
    }
    while i < disks.len()
        invariant
            i <= disks@.len(),
            all == crate::sampler::disk_views(disks@),
            first_free(all, name@) == first_free(all.skip(i as int), name@),
        decreases disks@.len() - i,
    {
        proof {
            assert(all.skip(i as int)[0] == disks@[i as int]@);
        }
        if str_eq(disks[i].name.as_str(), name) {
            let mut s = String::from_str("Disk ");
            append_gb2(&mut s, disks[i].free_bytes);
            s.append(" GB");
            proof {
                assert(s@ =~= disk_label(disks@[i as int]@.free_bytes));
            }
            return s;
        }
        proof {
            assert(all.skip(i as int).skip(1) =~= all.skip(i as int + 1));
        }
        i += 1;
    }
    proof {
        assert(all.skip(i as int).len() == 0);
    }
    String::new()
}

/// Renders a sensor metric's label from a sensor list: the first sensor of
/// that label decides, and a label not listed renders empty.
pub fn get_temp_usage(name: &str, temps: &Vec<TempInfo>) -> (r: String)
    ensures
        r@ == (match first_degrees(crate::sampler::temp_views(temps@), name@) {
            Some(d) => temp_label(d),
            None => Seq::<char>::empty(),
        }),
{
    let ghost all = crate::sampler::temp_views(temps@);
    let mut i: usize = 0;
    proof {
        assert(all.skip(0) =~= all);
    }
    while i < temps.len()
        invariant
            i <= temps@.len(),
            all == crate::sampler::temp_views(temps@),
            first_degrees(all, name@) == first_degrees(all.skip(i as int), name@),
        decreases temps@.len() - i,
    {
        proof {
            assert(all.skip(i as int)[0] == temps@[i as int]@);
        }
        if str_eq(temps[i].label.as_str(), name) {
            return temp_label_string(temps[i].degrees);
        }
        proof {
            assert(all.skip(i as int).skip(1) =~= all.skip(i as int + 1));
        }
        i += 1;
    }
    proof {
        assert(all.skip(i as int).len() == 0);
    }
    String::new()
}

/// One row of the browse popup's listings: a quantity's display name and
/// its rendered value.
#[derive(Debug, Clone)]
pub struct NamedValue {
    pub name: String,
    pub value: String,
}

/// Mathematical value of a [`NamedValue`].
pub struct NamedV {
    pub name: Seq<char>,
    pub value: Seq<char>,
}

impl View for NamedValue {
    type V = NamedV;

    open spec fn view(&self) -> NamedV {
        NamedV { name: self.name@, value: self.value@ }
    }
}

/// The values of a row list.
pub open spec fn named_views(s: Seq<NamedValue>) -> Seq<NamedV> {
    s.map_values(|v: NamedValue| v@)
}

/// The row list is sorted by name.
pub open spec fn names_sorted(s: Seq<NamedV>) -> bool {
    forall|i: int, j: int| 0 <= i < j < s.len() ==> lex_le(s[i].name, s[j].name)
}

/// No two rows of the list share a name.
pub open spec fn names_unique(s: Seq<NamedV>) -> bool {
    forall|i: int, j: int| 0 <= i < j < s.len() ==> s[i].name != s[j].name
}

/// Some row of the list is named `n`.
pub open spec fn has_name(s: Seq<NamedV>, n: Seq<char>) -> bool {
    exists|i: int| 0 <= i < s.len() && s[i].name == n
}

/// The memory rows of the browse popup, in the order they are listed. Like
/// every browse value, each figure is bare: the browse renderer adds the
/// unit of the row's tag exactly once.
pub open spec fn ram_stats_of(m: MemoryStats) -> Seq<NamedV> {
    seq![
        NamedV { name: "Total RAM"@, value: gb2(m.total) },
        NamedV { name: "Used RAM"@, value: gb2(m.used) },
        NamedV { name: "Free RAM"@, value: gb2(m.free) },
        NamedV { name: "Available RAM"@, value: gb2(m.available) },
        NamedV { name: "Free Swap"@, value: gb2(m.swap_free) },
        NamedV { name: "Total Swap"@, value: gb2(m.swap_total) },
        NamedV { name: "Used Swap"@, value: gb2(m.swap_used) },
    ]
}

/// The memory rows of the browse popup: each memory and swap figure under
/// its display name.
pub fn get_ram_stats(mem: &MemoryStats) -> (r: Vec<NamedValue>)
    ensures
        named_views(r@) == ram_stats_of(*mem),
{
    let mut out: Vec<NamedValue> = Vec::new();
    out.push(NamedValue { name: String::from_str("Total RAM"), value: gb2_string(mem.total) });
    out.push(NamedValue { name: String::from_str("Used RAM"), value: gb2_string(mem.used) });
    out.push(NamedValue { name: String::from_str("Free RAM"), value: gb2_string(mem.free) });
    out.push(
        NamedValue { name: String::from_str("Available RAM"), value: gb2_string(mem.available) },
    );
    out.push(NamedValue { name: String::from_str("Free Swap"), value: gb2_string(mem.swap_free) });
    out.push(
        NamedValue { name: String::from_str("Total Swap"), value: gb2_string(mem.swap_total) },
    );
    out.push(NamedValue { name: String::from_str("Used Swap"), value: gb2_string(mem.swap_used) });
    proof {
        assert(named_views(out@) =~= ram_stats_of(*mem));
    }
    out
}

/// The volume rows of the browse popup: one row per volume name, sorted by
/// name, each valued at its latest free space in two-decimal gigabytes.
pub fn get_disks(disks: &Vec<DiskInfo>) -> (r: Vec<NamedValue>)
    ensures
        names_sorted(named_views(r@)),
        names_unique(named_views(r@)),
        forall|n: Seq<char>|
            #[trigger] has_name(named_views(r@), n) == has_disk(disk_views(disks@), n),
        forall|k: int|
            0 <= k < r@.len() ==> named_views(r@)[k].value == gb2(
                last_free(disk_views(disks@), named_views(r@)[k].name),
            ),
{
    let unique = dedupe_disks(disks);
    let ghost uq = unique@;
    let sorted = sort_disks(unique);
    proof {
        broadcast use vstd::seq_lib::group_to_multiset_ensures;

        lemma_permutation_keeps_unique_names(uq, sorted@);
        lemma_permutation_keeps_names(uq, sorted@);
        assert forall|k: int|
            0 <= k < sorted@.len() implies disk_views(sorted@)[k].free_bytes == last_free(
            disk_views(disks@),
            disk_views(sorted@)[k].name,
        ) by {
            assert(sorted@.contains(sorted@[k]));
            assert(uq.to_multiset().count(sorted@[k]) > 0);
            assert(uq.contains(sorted@[k]));
            let w = choose|w: int| 0 <= w < uq.len() && uq[w] == sorted@[k];
            assert(disk_views(uq)[w] == disk_views(sorted@)[k]);
        }
    }
    let mut out: Vec<NamedValue> = Vec::new();
    let mut i: usize = 0;
    while i < sorted.len()
        invariant
            i <= sorted@.len(),
            out@.len() == i,
            forall|k: int|
                0 <= k < i ==> {
                    &&& named_views(out@)[k].name == disk_views(sorted@)[k].name
                    &&& named_views(out@)[k].value == gb2(disk_views(sorted@)[k].free_bytes)
                },
        decreases sorted@.len() - i,
    {
        out.push(
            NamedValue { name: sorted[i].name.clone(), value: gb2_string(sorted[i].free_bytes) },
        );
        i += 1;
    }
    proof {
        assert forall|n: Seq<char>| #[trigger] has_name(named_views(out@), n) == has_disk(
            disk_views(disks@),
            n,
        ) by {
            assert(has_disk(disk_views(uq), n) == has_disk(disk_views(sorted@), n));
            assert(has_disk(disk_views(uq), n) == has_disk(disk_views(disks@), n));
            if has_name(named_views(out@), n) {
                let w = choose|w: int| 0 <= w < out@.len() && named_views(out@)[w].name == n;
                assert(disk_views(sorted@)[w].name == n);
            }
            if has_disk(disk_views(sorted@), n) {
                let w = choose|w: int|
                    0 <= w < sorted@.len() && disk_views(sorted@)[w].name == n;
                assert(named_views(out@)[w].name == n);
            }
        }
    }
    out
}

/// A sensor reading as a browse row.
pub open spec fn named_temp(t: TempV) -> NamedV {
    NamedV { name: t.label, value: udec(t.degrees as nat) }
}

/// The sensor rows of the browse popup: every sensor sorted by label with
/// its reading, then the greatest and least readings as rows of their own.
pub fn get_temps(temps: &Vec<TempInfo>) -> (r: Vec<NamedValue>)
    ensures
        r@.len() == temps@.len() + 2,
        forall|i: int, j: int|
            0 <= i < j < temps@.len() ==> lex_le(
                named_views(r@)[i].name,
                named_views(r@)[j].name,
            ),
        named_views(r@).take(temps@.len() as int).to_multiset() == temp_views(temps@).map_values(
            |t: TempV| named_temp(t),
        ).to_multiset(),
        named_views(r@)[temps@.len() as int] == (NamedV {
            name: "Max Temp"@,
            value: udec(max_temp(temp_views(temps@)) as nat),
        }),
        named_views(r@)[temps@.len() as int + 1] == (NamedV {
            name: "Min Temp"@,
            value: udec(min_temp(temp_views(temps@)) as nat),
        }),
{
    let top = max_temp_of(temps);
    let bottom = min_temp_of(temps);
    let mut copy: Vec<TempInfo> = Vec::new();
    let mut i: usize = 0;
    while i < temps.len()
        invariant
            i <= temps@.len(),
            copy@ == temps@.take(i as int),
        decreases temps@.len() - i,
    {
        copy.push(TempInfo { label: temps[i].label.clone(), degrees: temps[i].degrees });
        proof {
            assert(copy@ =~= temps@.take(i + 1));
        }
        i += 1;
    }
    proof {
        assert(temps@.take(temps@.len() as int) =~= temps@);
    }
    let sorted = sort_temps(copy);
    proof {
        broadcast use vstd::seq_lib::group_to_multiset_ensures;

        assert(sorted@.len() == temps@.len()) by {
            assert(sorted@.to_multiset().len() == sorted@.len());
            assert(temps@.to_multiset().len() == temps@.len());
        }
        lemma_to_multiset_map(
            sorted@,
            temps@,
            |t: TempInfo| (NamedV { name: t.label@, value: udec(t.degrees as nat) }),
        );
        assert(temp_views(temps@).map_values(|t: TempV| named_temp(t)) =~= temps@.map_values(
            |t: TempInfo| (NamedV { name: t.label@, value: udec(t.degrees as nat) }),
        ));
    }
    let mut out: Vec<NamedValue> = Vec::new();
    let mut i: usize = 0;
    while i < sorted.len()
        invariant
            i <= sorted@.len(),
            out@.len() == i,
            forall|k: int|
                0 <= k < i ==> {
                    &&& named_views(out@)[k].name == temp_views(sorted@)[k].label
                    &&& named_views(out@)[k].value == udec(temp_views(sorted@)[k].degrees as nat)
                },
        decreases sorted@.len() - i,
    {
        out.push(
            NamedValue { name: sorted[i].label.clone(), value: u64_string(sorted[i].degrees as u64) },
        );
        i += 1;
    }
    proof {
        assert(named_views(out@) =~= sorted@.map_values(
            |t: TempInfo| (NamedV { name: t.label@, value: udec(t.degrees as nat) }),
        ));
        assert(named_views(out@).to_multiset() == temp_views(temps@).map_values(
            |t: TempV| named_temp(t),
        ).to_multiset());
    }
    let ghost prefix = named_views(out@);
    out.push(NamedValue { name: String::from_str("Max Temp"), value: u64_string(top as u64) });
    out.push(NamedValue { name: String::from_str("Min Temp"), value: u64_string(bottom as u64) });
    proof {
        assert(named_views(out@).take(temps@.len() as int) =~= prefix);
        assert forall|i2: int, j2: int|
            0 <= i2 < j2 < temps@.len() implies lex_le(
            named_views(out@)[i2].name,
            named_views(out@)[j2].name,
        ) by {
            assert(named_views(out@)[i2] == prefix[i2]);
            assert(named_views(out@)[j2] == prefix[j2]);
            assert(prefix[i2].name == temp_views(sorted@)[i2].label);
            assert(prefix[j2].name == temp_views(sorted@)[j2].label);
        }
    }
    out
}

/// Renders any metric's label under a snapshot; executable counterpart of
/// [`label_of`].
pub fn format_stat(stat_type: &StatType, snap: &Snapshot) -> (r: String)
    ensures
        r@ == label_of(stat_type@, snap@),
{
    match stat_type {
        StatType::Ram => get_ram_usage(&snap.memory),
        StatType::Disk(n) => get_storage_usage(n.as_str(), &snap.disks),
        StatType::Temperature(n) => get_temp_usage(n.as_str(), &snap.temps),
        StatType::MaxTemperature => temp_label_string(max_temp_of(&snap.temps)),
        StatType::MinTemperature => temp_label_string(min_temp_of(&snap.temps)),
    }
}

} // verus!
