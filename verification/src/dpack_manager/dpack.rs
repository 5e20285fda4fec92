use vstd::prelude::*;
use vstd::std_specs::cmp::PartialEqSpecImpl;

use crate::codec::ByteIter;
use crate::dindex::{lemma_parse_dindex_shrinks, lemma_parse_serialized, parse_dindex, serialized, DIndex, DIndexView};

verus! {

/// The names of the indexes in a pack.
pub open spec fn index_names(ps: Seq<DIndexView>) -> Seq<Seq<char>> {
    ps.map_values(|d: DIndexView| d.name)
}

/// The indexes `ps` with the one named like `d` replaced by it, or `d` added at the end.
pub open spec fn upsert_index(ps: Seq<DIndexView>, d: DIndexView) -> Seq<DIndexView> {
    if index_names(ps).contains(d.name) {
        ps.update(index_names(ps).index_of(d.name), d)
    } else {
        ps.push(d)
    }
}

/// The stored form of a pack: its indexes' stored forms, one after another.
pub open spec fn ser_pack(ps: Seq<DIndexView>) -> Seq<u8>
    decreases ps.len(),
{
    if ps.len() == 0 {
        Seq::empty()
    } else {
        ser_pack(ps.drop_last()) + serialized(ps.last())
    }
}

/// The indexes read from `s` in turn, added to `acc`, until one can no longer be read.
pub open spec fn parse_pack_from(s: Seq<u8>, acc: Seq<DIndexView>) -> Seq<DIndexView>
    decreases s.len(),
{
    match parse_dindex(s) {
        None => acc,
        Some((d, r)) => {
            proof {
                lemma_parse_dindex_shrinks(s);
            }
            parse_pack_from(r, upsert_index(acc, d))
        },
    }
}

/// The indexes that a pack's bytes hold.
pub open spec fn parse_pack(s: Seq<u8>) -> Seq<DIndexView> {
    parse_pack_from(s, Seq::empty())
}

/// What a pack holds, as values: its indexes.
pub open spec fn pack_wf(ps: Seq<DIndexView>) -> bool {
    &&& index_names(ps).no_duplicates()
    &&& forall|i: int| 0 <= i < ps.len() ==> (#[trigger] ps[i]).wf()
}

/// Several indexes stored together, at most one per name.
#[derive(Clone, Debug)]
pub struct DPack {
    entries: Vec<DIndex>,
}

/// Whether `b` holds an index equal to `x`, as indexes are compared.
pub open spec fn has_equal(b: Seq<DIndexView>, x: DIndexView) -> bool {
    exists|j: int| 0 <= j < b.len() && x.same_as(#[trigger] b[j])
}

/// The same indexes, each equal as indexes are, in any order: the equality
/// of two packs.
pub open spec fn same_pack(a: Seq<DIndexView>, b: Seq<DIndexView>) -> bool {
    &&& a.len() == b.len()
    &&& forall|i: int| 0 <= i < a.len() ==> has_equal(b, #[trigger] a[i])
}

/// Whether `ps` holds an index equal to `d`.
fn holds_index(ps: &Vec<DIndex>, d: &DIndex) -> (found: bool)
    ensures
        found == has_equal(ps@.map_values(|x: DIndex| x@), d@),
{
    let ghost b = ps@.map_values(|x: DIndex| x@);
    let mut j: usize = 0;
    while j < ps.len()
        invariant
            b == ps@.map_values(|x: DIndex| x@),
            j <= ps.len(),
            forall|k: int| 0 <= k < j ==> !d@.same_as(#[trigger] b[k]),
        decreases ps.len() - j,
    {
        if *d == ps[j] {
            assert(d@.same_as(b[j as int]));
            return true;
        }
        j = j + 1;
    }
    false
}

impl PartialEq for DPack {
    /// Two packs are equal where they hold equal indexes, whatever their order.
    fn eq(&self, other: &DPack) -> (same: bool) {
        if self.entries.len() != other.entries.len() {
            return false;
        }
        let mut i: usize = 0;
        while i < self.entries.len()
            invariant
                self.entries.len() == other.entries.len(),
                i <= self.entries.len(),
                forall|k: int| 0 <= k < i ==> has_equal(other@, #[trigger] self@[k]),
            decreases self.entries.len() - i,
        {
            let found = holds_index(&other.entries, &self.entries[i]);
            assert(self@[i as int] == self.entries@[i as int]@);
            if !found {
                return false;
            }
            i = i + 1;
        }
        true
    }
}

impl PartialEqSpecImpl for DPack {
    open spec fn obeys_eq_spec() -> bool {
        true
    }

    open spec fn eq_spec(&self, other: &DPack) -> bool {
        same_pack(self@, other@)
    }
}

impl View for DPack {
    type V = Seq<DIndexView>;

    closed spec fn view(&self) -> Seq<DIndexView> {
        self.entries@.map_values(|d: DIndex| d@)
    }
}

fn find_index(entries: &Vec<DIndex>, name: &String) -> (pos: Option<usize>)
    ensures
        ({
            let names = index_names(entries@.map_values(|d: DIndex| d@));
            match pos {
                Some(k) => k < entries@.len() && names[k as int] == name@ && names.contains(name@)
                    && (names.no_duplicates() ==> names.index_of(name@) == k),
                None => !names.contains(name@),
            }
        }),
{
    let ghost names = index_names(entries@.map_values(|d: DIndex| d@));
    let mut k: usize = 0;
    while k < entries.len()
        invariant
            names == index_names(entries@.map_values(|d: DIndex| d@)),
            k <= entries.len(),
            forall|j: int| 0 <= j < k ==> names[j] != name@,
        decreases entries.len() - k,
    {
        if entries[k].name() == *name {
            proof {
                assert(names[k as int] == name@);
                assert(names.contains(name@));
            }
            return Some(k);
        }
        k = k + 1;
    }
    proof {
        if names.contains(name@) {
            let j = choose|j: int| 0 <= j < names.len() && names[j] == name@;
            assert(names[j] != name@);
        }
    }
    None
}

fn upsert_into(entries: &mut Vec<DIndex>, index: DIndex)
    requires
        pack_wf(old(entries)@.map_values(|d: DIndex| d@)),
        index@.wf(),
    ensures
        final(entries)@.map_values(|d: DIndex| d@) == upsert_index(old(entries)@.map_values(|d: DIndex| d@), index@),
        pack_wf(final(entries)@.map_values(|d: DIndex| d@)),
{
    let ghost ps = old(entries)@.map_values(|d: DIndex| d@);
    let ghost names = index_names(ps);
    let ghost d = index@;
    let name = index.name();
    match find_index(entries, &name) {
        Some(k) => {
            entries.remove(k);
            entries.insert(k, index);
            proof {
                let ps2 = entries@.map_values(|d: DIndex| d@);
                assert(ps2 =~= ps.update(k as int, d));
                assert(index_names(ps2) =~= names);
                assert forall|i: int| 0 <= i < ps2.len() implies (#[trigger] ps2[i]).wf() by {
                    if i != k {
                        assert(ps2[i] == ps[i]);
                    }
                }
            }
        },
        None => {
            entries.push(index);
            proof {
                let ps2 = entries@.map_values(|d: DIndex| d@);
                assert(ps2 =~= ps.push(d));
                let n2 = index_names(ps2);
                assert(n2 =~= names.push(d.name));
                assert forall|a: int, b: int| 0 <= a < n2.len() && 0 <= b < n2.len() && a != b implies n2[a] != n2[b] by {
                    if a == names.len() as int {
                        assert(names[b] == n2[b]);
                    } else if b == names.len() as int {
                        assert(names[a] == n2[a]);
                    }
                }
                assert forall|i: int| 0 <= i < ps2.len() implies (#[trigger] ps2[i]).wf() by {
                    if i < ps.len() {
                        assert(ps2[i] == ps[i]);
                    }
                }
            }
        },
    }
}

impl DPack {
    pub closed spec fn wf(&self) -> bool {
        pack_wf(self@)
    }

    /// An empty pack.
    pub fn new() -> (pack: DPack)
        ensures
            pack@ == Seq::<DIndexView>::empty(),
            pack.wf(),
    {
        let pack = DPack { entries: Vec::new() };
        assert(pack@ =~= Seq::<DIndexView>::empty());
        pack
    }

    /// Puts `index` in the pack, in place of any index with the same name.
    pub fn insert(&mut self, index: DIndex)
        requires
            old(self).wf(),
            index@.wf(),
        ensures
            final(self)@ == upsert_index(old(self)@, index@),
            final(self).wf(),
    {
        upsert_into(&mut self.entries, index);
    }

    /// Takes the index named `name` out of the pack.
    pub fn into_entry(self, name: &str) -> (entry: Option<DIndex>)
        requires
            self.wf(),
        ensures
            match entry {
                Some(index) => index_names(self@).contains(name@)
                    && index@ == self@[index_names(self@).index_of(name@)] && index@.wf(),
                None => !index_names(self@).contains(name@),
            },
    {
        let mut entries = self.entries;
        let key = name.to_owned();
        match find_index(&entries, &key) {
            Some(k) => {
                let ghost ps = entries@.map_values(|d: DIndex| d@);
                let index = entries.remove(k);
                assert(index@ == ps[k as int]);
                Some(index)
            },
            None => None,
        }
    }

    /// The stored form of the pack.
    pub fn to_bytes(&self) -> (data: Vec<u8>)
        ensures
            data@ == ser_pack(self@),
    {
        let ghost ps = self@;
        let mut data: Vec<u8> = Vec::new();
        let mut i: usize = 0;
        while i < self.entries.len()
            invariant
                ps == self@,
                i <= self.entries.len(),
                data@ == ser_pack(ps.take(i as int)),
            decreases self.entries.len() - i,
        {
            let mut bytes = self.entries[i].to_bytes();
            data.append(&mut bytes);
            proof {
                assert(ps.take(i as int + 1).drop_last() =~= ps.take(i as int));
                assert(ps[i as int] == self.entries@[i as int]@);
            }
            i = i + 1;
        }
        proof {
            assert(ps.take(i as int) =~= ps);
        }
        data
    }

    /// Reads a pack: indexes are read in turn until one can no longer be read;
    /// a later index replaces an earlier one with the same name.
    pub fn from_bytes(data: Vec<u8>) -> (pack: DPack)
        ensures
            pack@ == parse_pack(data@),
            pack.wf(),
    {
        let ghost s0 = data@;
        let mut iter = ByteIter::new(data);
        let mut entries: Vec<DIndex> = Vec::new();
        proof {
            assert(entries@.map_values(|d: DIndex| d@) =~= Seq::<DIndexView>::empty());
        }
        loop
            invariant_except_break
                parse_pack(s0) == parse_pack_from(iter@, entries@.map_values(|d: DIndex| d@)),
            invariant
                iter.wf(),
                pack_wf(entries@.map_values(|d: DIndex| d@)),
            ensures
                parse_pack(s0) == entries@.map_values(|d: DIndex| d@),
            decreases iter@.len(),
        {
            let ghost before = iter@;
            let ghost acc = entries@.map_values(|d: DIndex| d@);
            match DIndex::from_byte_iter(&mut iter) {
                Ok(index) => {
                    proof {
                        lemma_parse_dindex_shrinks(before);
                    }
                    upsert_into(&mut entries, index);
                },
                Err(_) => {
                    break;
                },
            }
        }
        DPack { entries }
    }
}

proof fn lemma_ser_pack_front(ps: Seq<DIndexView>)
    requires
        ps.len() > 0,
    ensures
        ser_pack(ps) == serialized(ps[0]) + ser_pack(ps.drop_first()),
    decreases ps.len(),
{
    if ps.len() == 1 {
        assert(ps.drop_last() =~= Seq::<DIndexView>::empty());
        assert(ps.drop_first() =~= Seq::<DIndexView>::empty());
        assert(ser_pack(ps) =~= serialized(ps[0]) + ser_pack(ps.drop_first()));
    } else {
        lemma_ser_pack_front(ps.drop_last());
        assert(ps.drop_last().drop_first() =~= ps.drop_first().drop_last());
        assert(ps.drop_first().last() == ps.last());
        assert(ps.drop_last()[0] == ps[0]);
        assert(ser_pack(ps) =~= serialized(ps[0]) + ser_pack(ps.drop_first()));
    }
}

proof fn lemma_parse_pack_from_serialized(ps: Seq<DIndexView>, acc: Seq<DIndexView>)
    requires
        index_names(acc + ps).no_duplicates(),
        forall|i: int| 0 <= i < ps.len() ==> (#[trigger] ps[i]).storable(),
    ensures
        parse_pack_from(ser_pack(ps), acc) == acc + ps,
    decreases ps.len(),
{
    if ps.len() == 0 {
        assert(ser_pack(ps).len() == 0);
        assert(parse_dindex(Seq::<u8>::empty()) is None);
        assert(acc + ps =~= acc);
    } else {
        let d = ps[0];
        let rest = ps.drop_first();
        lemma_ser_pack_front(ps);
        assert(d.storable());
        lemma_parse_serialized(d, ser_pack(rest));
        let names = index_names(acc + ps);
        assert(!index_names(acc).contains(d.name)) by {
            if index_names(acc).contains(d.name) {
                let k = choose|k: int| 0 <= k < index_names(acc).len() && index_names(acc)[k] == d.name;
                assert(names[k] == names[acc.len() as int]);
            }
        }
        assert(upsert_index(acc, d) == acc.push(d));
        assert(acc.push(d) + rest =~= acc + ps);
        assert forall|i: int| 0 <= i < rest.len() implies (#[trigger] rest[i]).storable() by {
            assert(rest[i] == ps[i + 1]);
        }
        lemma_parse_pack_from_serialized(rest, acc.push(d));
    }
}

/// Putting `d` into a pack keeps one index per name, makes `d` the index
/// found under its name, and leaves every other index as it was.
pub proof fn lemma_upsert_index(ps: Seq<DIndexView>, d: DIndexView)
    requires
        index_names(ps).no_duplicates(),
    ensures
        ({
            let r = upsert_index(ps, d);
            &&& index_names(r).no_duplicates()
            &&& index_names(r).contains(d.name)
            &&& r[index_names(r).index_of(d.name)] == d
            &&& forall|i: int| 0 <= i < r.len() ==> #[trigger] r[i] == d || (i < ps.len() && r[i] == ps[i])
        }),
{
    let names = index_names(ps);
    let r = upsert_index(ps, d);
    let rn = index_names(r);
    if names.contains(d.name) {
        let k = names.index_of(d.name);
        assert(rn =~= names);
        assert(rn.index_of(d.name) == k);
    } else {
        assert(rn =~= names.push(d.name));
        assert forall|a: int, b: int| 0 <= a < rn.len() && 0 <= b < rn.len() && a != b implies rn[a] != rn[b] by {
            if a == names.len() as int {
                assert(names[b] == rn[b]);
            } else if b == names.len() as int {
                assert(names[a] == rn[a]);
            }
        }
        assert(rn[names.len() as int] == d.name);
        let j = rn.index_of(d.name);
        assert(j == names.len() as int) by {
            if j < names.len() {
                assert(names[j] == d.name);
            }
        }
    }
}

/// Putting `d` into a pack leaves every other name as it was: held or not
/// as before, and by the same index.
pub proof fn lemma_upsert_index_other(ps: Seq<DIndexView>, d: DIndexView, n: Seq<char>)
    requires
        index_names(ps).no_duplicates(),
        n != d.name,
    ensures
        index_names(upsert_index(ps, d)).contains(n) == index_names(ps).contains(n),
        index_names(ps).contains(n) ==> upsert_index(ps, d)[index_names(upsert_index(ps, d)).index_of(n)]
            == ps[index_names(ps).index_of(n)],
{
    let names = index_names(ps);
    let r = upsert_index(ps, d);
    let rn = index_names(r);
    lemma_upsert_index(ps, d);
    if names.contains(d.name) {
        let k = names.index_of(d.name);
        assert(rn =~= names);
        if names.contains(n) {
            let j = names.index_of(n);
            assert(j != k);
            assert(r[j] == ps[j]);
        }
    } else {
        assert(rn =~= names.push(d.name));
        if names.contains(n) {
            let j = names.index_of(n);
            assert(rn[j] == n);
            assert(rn.index_of(n) == j);
            assert(r[j] == ps[j]);
        } else {
            assert(!rn.contains(n)) by {
                if rn.contains(n) {
                    let j = choose|j: int| 0 <= j < rn.len() && rn[j] == n;
                    if j < names.len() {
                        assert(names[j] == n);
                    }
                }
            }
        }
    }
}

/// The pack after each index of `ds` was inserted in turn into an empty pack.
pub open spec fn packed(ds: Seq<DIndexView>) -> Seq<DIndexView>
    decreases ds.len(),
{
    if ds.len() == 0 {
        Seq::empty()
    } else {
        upsert_index(packed(ds.drop_last()), ds.last())
    }
}

/// A pack filled by inserts holds each name once.
pub proof fn lemma_packed_distinct(ds: Seq<DIndexView>)
    ensures
        index_names(packed(ds)).no_duplicates(),
    decreases ds.len(),
{
    if ds.len() == 0 {
        assert(index_names(packed(ds)) =~= Seq::<Seq<char>>::empty());
    } else {
        lemma_packed_distinct(ds.drop_last());
        lemma_upsert_index(packed(ds.drop_last()), ds.last());
    }
}

/// Over a sequence of inserts, the pack holds an index under a name exactly
/// where one was inserted under it, and it is the last one inserted, so that
/// `into_entry` gives that one.
pub proof fn lemma_packed_last(ds: Seq<DIndexView>, n: Seq<char>)
    ensures
        index_names(packed(ds)).contains(n) <==> index_names(ds).contains(n),
        forall|j: int|
            0 <= j < ds.len() && #[trigger] ds[j].name == n && (forall|l: int| j < l < ds.len() ==> ds[l].name != n)
                ==> packed(ds)[index_names(packed(ds)).index_of(n)] == ds[j],
    decreases ds.len(),
{
    if ds.len() == 0 {
        assert(index_names(packed(ds)) =~= Seq::<Seq<char>>::empty());
        assert(index_names(ds) =~= Seq::<Seq<char>>::empty());
    } else {
        let prev = ds.drop_last();
        let d = ds.last();
        lemma_packed_last(prev, n);
        lemma_packed_distinct(prev);
        lemma_upsert_index(packed(prev), d);
        assert(index_names(ds) =~= index_names(prev).push(d.name));
        if n == d.name {
            assert(index_names(ds)[ds.len() - 1] == n);
            assert forall|j: int|
                0 <= j < ds.len() && #[trigger] ds[j].name == n && (forall|l: int| j < l < ds.len() ==> ds[l].name != n)
                    implies packed(ds)[index_names(packed(ds)).index_of(n)] == ds[j] by {
                if j < ds.len() - 1 {
                    assert(ds[ds.len() - 1].name == n);
                }
            }
        } else {
            lemma_upsert_index_other(packed(prev), d, n);
            assert(index_names(ds).contains(n) <==> index_names(prev).contains(n)) by {
                if index_names(ds).contains(n) {
                    let j = choose|j: int| 0 <= j < index_names(ds).len() && index_names(ds)[j] == n;
                    assert(j < prev.len());
                    assert(index_names(prev)[j] == n);
                }
                if index_names(prev).contains(n) {
                    let j = choose|j: int| 0 <= j < index_names(prev).len() && index_names(prev)[j] == n;
                    assert(index_names(ds)[j] == n);
                }
            }
            assert forall|j: int|
                0 <= j < ds.len() && #[trigger] ds[j].name == n && (forall|l: int| j < l < ds.len() ==> ds[l].name != n)
                    implies packed(ds)[index_names(packed(ds)).index_of(n)] == ds[j] by {
                assert(j < prev.len());
                assert(prev[j] == ds[j]);
                assert(forall|l: int| j < l < prev.len() ==> prev[l].name != n) by {
                    assert forall|l: int| j < l < prev.len() implies prev[l].name != n by {
                        assert(prev[l] == ds[l]);
                    }
                }
                assert(index_names(prev)[j] == n);
            }
        }
    }
}

/// Reading back the stored form of a pack gives the pack, where its indexes
/// can be stored and read back.
pub proof fn lemma_parse_pack_serialized(ps: Seq<DIndexView>)
    requires
        index_names(ps).no_duplicates(),
        forall|i: int| 0 <= i < ps.len() ==> (#[trigger] ps[i]).storable(),
    ensures
        parse_pack(ser_pack(ps)) == ps,
{
    assert(Seq::<DIndexView>::empty() + ps =~= ps);
    lemma_parse_pack_from_serialized(ps, Seq::empty());
}

} // verus!
