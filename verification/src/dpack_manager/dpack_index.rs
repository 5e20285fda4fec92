use vstd::prelude::*;
use vstd::std_specs::cmp::PartialEqSpecImpl;
use vstd::utf8::encode_utf8;

use super::dpack_id::DPackId;
use super::errors::DPackIndexLoadError;
use crate::codec::{
    lemma_encode_utf8_avoids, lemma_lossy_text_of_encoding, lemma_take_u64_roundtrip,
    lemma_take_until_none, lemma_take_until_roundtrip, lossy_text, push_bytes, push_u64_be, string_from_utf8_lossy,
    take_u64, take_until, u64_be, ByteIter,
};

verus! {

/// What a pack index holds: for each index name the number of its pack, and
/// the number of the pack that new indexes go to.
pub struct DPackIndexView {
    pub entries: Seq<(Seq<char>, u64)>,
    pub head: u64,
}

/// The names of the entries.
pub open spec fn entry_names(es: Seq<(Seq<char>, u64)>) -> Seq<Seq<char>> {
    es.map_values(|e: (Seq<char>, u64)| e.0)
}

/// The entries with the one for `name` set to `id`, or one added at the end.
pub open spec fn upsert_named(es: Seq<(Seq<char>, u64)>, name: Seq<char>, id: u64) -> Seq<(Seq<char>, u64)> {
    if entry_names(es).contains(name) {
        es.update(entry_names(es).index_of(name), (name, id))
    } else {
        es.push((name, id))
    }
}

/// The entries after each pair of `pairs` was set in turn.
pub open spec fn upsert_all(pairs: Seq<(Seq<char>, u64)>) -> Seq<(Seq<char>, u64)>
    decreases pairs.len(),
{
    if pairs.len() == 0 {
        Seq::empty()
    } else {
        upsert_named(upsert_all(pairs.drop_last()), pairs.last().0, pairs.last().1)
    }
}

impl DPackIndexView {
    pub open spec fn wf(self) -> bool {
        entry_names(self.entries).no_duplicates()
    }

    /// The pack number recorded for `name`.
    pub open spec fn lookup(self, name: Seq<char>) -> Option<u64> {
        if entry_names(self.entries).contains(name) {
            Some(self.entries[entry_names(self.entries).index_of(name)].1)
        } else {
            None
        }
    }

    /// The index can be written and read back unchanged.
    pub open spec fn storable(self) -> bool {
        &&& self.wf()
        &&& self.entries.len() <= u64::MAX
        &&& forall|i: int| 0 <= i < self.entries.len() ==> !(#[trigger] self.entries[i]).0.contains('\0')
    }
}

/// The bytes of the entries: each name in UTF-8 closed by a zero byte, then its pack number.
pub open spec fn ser_pack_entries(es: Seq<(Seq<char>, u64)>) -> Seq<u8>
    decreases es.len(),
{
    if es.len() == 0 {
        Seq::empty()
    } else {
        ser_pack_entries(es.drop_last()) + encode_utf8(es.last().0) + seq![0u8] + u64_be(es.last().1)
    }
}

/// The stored form of a pack index: the head, the number of entries and the entries.
pub open spec fn serialized_pack_index(i: DPackIndexView) -> Seq<u8> {
    u64_be(i.head) + u64_be(i.entries.len() as u64) + ser_pack_entries(i.entries)
}

/// Reads `n` entries; a later entry for a name replaces an earlier one.
pub open spec fn parse_pack_entries(s: Seq<u8>, n: nat) -> Option<(Seq<(Seq<char>, u64)>, Seq<u8>)>
    decreases n,
{
    if n == 0 {
        Some((Seq::empty(), s))
    } else {
        match parse_pack_entries(s, (n - 1) as nat) {
            None => None,
            Some((es, r1)) => match take_until(r1, 0u8) {
                None => None,
                Some((name, r2)) => match take_u64(r2) {
                    None => None,
                    Some((id, r3)) => Some((upsert_named(es, lossy_text(name), id), r3)),
                },
            },
        }
    }
}

/// Reads a pack index; no bytes at all stand for the empty index with head 0,
/// and `None` where the bytes end early.
pub open spec fn parse_pack_index(s: Seq<u8>) -> Option<DPackIndexView> {
    if s.len() == 0 {
        Some(DPackIndexView { entries: Seq::empty(), head: 0 })
    } else {
        match take_u64(s) {
            None => None,
            Some((head, r1)) => match take_u64(r1) {
                None => None,
                Some((n, r2)) => match parse_pack_entries(r2, n as nat) {
                    None => None,
                    Some((entries, _)) => Some(DPackIndexView { entries, head }),
                },
            },
        }
    }
}

/// Which pack holds which index, and the pack that new indexes go to.
#[derive(Clone, Debug)]
pub struct DPackIndex {
    entries: Vec<(String, DPackId)>,
    head: DPackId,
}

impl View for DPackIndex {
    type V = DPackIndexView;

    closed spec fn view(&self) -> DPackIndexView {
        DPackIndexView {
            entries: self.entries@.map_values(|e: (String, DPackId)| (e.0@, e.1@)),
            head: self.head@,
        }
    }
}

impl DPackIndexView {
    /// The same head and the same name-to-pack pairs, in any order: the
    /// equality of two pack indexes.
    pub open spec fn same_as(self, other: DPackIndexView) -> bool {
        &&& self.head == other.head
        &&& self.entries.len() == other.entries.len()
        &&& forall|i: int| 0 <= i < self.entries.len() ==> other.entries.contains(#[trigger] self.entries[i])
    }
}

/// Whether `es` holds the pair `(name, id)`.
fn holds_pair(es: &Vec<(String, DPackId)>, name: &String, id: DPackId) -> (found: bool)
    ensures
        found == es@.map_values(|e: (String, DPackId)| (e.0@, e.1@)).contains((name@, id@)),
{
    let ghost m = es@.map_values(|e: (String, DPackId)| (e.0@, e.1@));
    let mut j: usize = 0;
    while j < es.len()
        invariant
            m == es@.map_values(|e: (String, DPackId)| (e.0@, e.1@)),
            j <= es.len(),
            forall|k: int| 0 <= k < j ==> m[k] != (name@, id@),
        decreases es.len() - j,
    {
        if es[j].0 == *name && es[j].1.value() == id.value() {
            assert(m[j as int] == (name@, id@));
            return true;
        }
        j = j + 1;
    }
    proof {
        if m.contains((name@, id@)) {
            let k = choose|k: int| 0 <= k < m.len() && m[k] == (name@, id@);
            assert(m[k] != (name@, id@));
        }
    }
    false
}

impl PartialEq for DPackIndex {
    /// Two pack indexes are equal where they have the same head and record the
    /// same pack for the same names, whatever the order of the entries.
    fn eq(&self, other: &DPackIndex) -> (same: bool) {
        if self.head.value() != other.head.value() || self.entries.len() != other.entries.len() {
            return false;
        }
        let ghost a = self@.entries;
        let mut i: usize = 0;
        while i < self.entries.len()
            invariant
                a == self@.entries,
                self.entries.len() == other.entries.len(),
                i <= self.entries.len(),
                forall|k: int| 0 <= k < i ==> other@.entries.contains(#[trigger] a[k]),
            decreases self.entries.len() - i,
        {
            if !holds_pair(&other.entries, &self.entries[i].0, self.entries[i].1) {
                assert(a[i as int] == (self.entries@[i as int].0@, self.entries@[i as int].1@));
                return false;
            }
            assert(a[i as int] == (self.entries@[i as int].0@, self.entries@[i as int].1@));
            i = i + 1;
        }
        true
    }
}

impl PartialEqSpecImpl for DPackIndex {
    open spec fn obeys_eq_spec() -> bool {
        true
    }

    open spec fn eq_spec(&self, other: &DPackIndex) -> bool {
        self@.same_as(other@)
    }
}

fn find_name(entries: &Vec<(String, DPackId)>, name: &String) -> (pos: Option<usize>)
    ensures
        ({
            let names = entry_names(entries@.map_values(|e: (String, DPackId)| (e.0@, e.1@)));
            match pos {
                Some(k) => k < entries@.len() && names[k as int] == name@ && names.contains(name@)
                    && (names.no_duplicates() ==> names.index_of(name@) == k),
                None => !names.contains(name@),
            }
        }),
{
    let ghost names = entry_names(entries@.map_values(|e: (String, DPackId)| (e.0@, e.1@)));
    let mut k: usize = 0;
    while k < entries.len()
        invariant
            names == entry_names(entries@.map_values(|e: (String, DPackId)| (e.0@, e.1@))),
            k <= entries.len(),
            forall|j: int| 0 <= j < k ==> names[j] != name@,
        decreases entries.len() - k,
    {
        if entries[k].0 == *name {
            proof {
                assert(names[k as int] == name@);
                assert(names.contains(name@));
            }
            return Some(k);
        }
        k = k + 1;
    }
    proof {
        if names.contains(name@) {
            let j = choose|j: int| 0 <= j < names.len() && names[j] == name@;
            assert(names[j] != name@);
        }
    }
    None
}

/// Sets the entry for `name` to `id`, or adds it.
fn upsert_entry(entries: &mut Vec<(String, DPackId)>, name: String, id: DPackId)
    requires
        entry_names(old(entries)@.map_values(|e: (String, DPackId)| (e.0@, e.1@))).no_duplicates(),
    ensures
        final(entries)@.map_values(|e: (String, DPackId)| (e.0@, e.1@))
            == upsert_named(old(entries)@.map_values(|e: (String, DPackId)| (e.0@, e.1@)), name@, id@),
        entry_names(final(entries)@.map_values(|e: (String, DPackId)| (e.0@, e.1@))).no_duplicates(),
{
    let ghost es = old(entries)@.map_values(|e: (String, DPackId)| (e.0@, e.1@));
    let ghost names = entry_names(es);
    match find_name(entries, &name) {
        Some(k) => {
            entries.remove(k);
            entries.insert(k, (name, id));
            proof {
                let es2 = entries@.map_values(|e: (String, DPackId)| (e.0@, e.1@));
                assert(es2 =~= es.update(k as int, (name@, id@)));
                assert(entry_names(es2) =~= names);
            }
        },
        None => {
            let ghost before = entries@;
            entries.push((name, id));
            proof {
                let es2 = entries@.map_values(|e: (String, DPackId)| (e.0@, e.1@));
                assert(es2 =~= es.push((name@, id@)));
                let n2 = entry_names(es2);
                assert(n2 =~= names.push(name@));
                assert forall|a: int, b: int| 0 <= a < n2.len() && 0 <= b < n2.len() && a != b implies n2[a] != n2[b] by {
                    if a == names.len() as int {
                        assert(names[b] == n2[b]);
                    } else if b == names.len() as int {
                        assert(names[a] == n2[a]);
                    }
                }
            }
        },
    }
}

impl DPackIndex {
    /// A pack index with the given entries, a later pair for a name replacing
    /// an earlier one, and the given head.
    pub fn new(entries: Vec<(String, DPackId)>, head: DPackId) -> (index: DPackIndex)
        ensures
            index@ == (DPackIndexView { entries: upsert_all(entries@.map_values(|e: (String, DPackId)| (e.0@, e.1@))), head: head@ }),
            index@.wf(),
    {
        let ghost pairs = entries@.map_values(|e: (String, DPackId)| (e.0@, e.1@));
        let mut result: Vec<(String, DPackId)> = Vec::new();
        let mut rest = entries;
        let ghost taken: nat = 0;
        proof {
            assert(result@.map_values(|e: (String, DPackId)| (e.0@, e.1@)) =~= upsert_all(pairs.take(0)));
            assert(rest@.map_values(|e: (String, DPackId)| (e.0@, e.1@)) =~= pairs.skip(0));
        }
        while rest.len() > 0
            invariant
                taken <= pairs.len(),
                rest@.len() == pairs.len() - taken,
                rest@.map_values(|e: (String, DPackId)| (e.0@, e.1@)) == pairs.skip(taken as int),
                result@.map_values(|e: (String, DPackId)| (e.0@, e.1@)) == upsert_all(pairs.take(taken as int)),
                entry_names(result@.map_values(|e: (String, DPackId)| (e.0@, e.1@))).no_duplicates(),
            decreases rest.len(),
        {
            let ghost before = rest@;
            let (name, id) = rest.remove(0);
            proof {
                assert(pairs.skip(taken as int)[0] == (name@, id@));
                assert(pairs.take(taken as int + 1).drop_last() =~= pairs.take(taken as int));
                assert(pairs.take(taken as int + 1).last() == (name@, id@));
                let m = rest@.map_values(|e: (String, DPackId)| (e.0@, e.1@));
                let mb = before.map_values(|e: (String, DPackId)| (e.0@, e.1@));
                assert forall|k: int| 0 <= k < m.len() implies m[k] == pairs.skip(taken as int + 1)[k] by {
                    assert(rest@[k] == before[k + 1]);
                    assert(mb[k + 1] == pairs.skip(taken as int)[k + 1]);
                }
                assert(m =~= pairs.skip(taken as int + 1));
            }
            upsert_entry(&mut result, name, id);
            proof {
                taken = taken + 1;
            }
        }
        proof {
            assert(pairs.take(taken as int) =~= pairs);
        }
        DPackIndex { entries: result, head }
    }

    /// The empty pack index with head 0.
    pub fn default() -> (index: DPackIndex)
        ensures
            index@ == (DPackIndexView { entries: Seq::empty(), head: 0 }),
            index@.wf(),
    {
        let index = DPackIndex { entries: Vec::new(), head: DPackId::default() };
        assert(index@.entries =~= Seq::<(Seq<char>, u64)>::empty());
        index
    }

    pub fn head(&self) -> (id: DPackId)
        ensures
            id@ == self@.head,
    {
        self.head
    }

    /// The pack that holds the index `name`, if it was recorded.
    pub fn get_pack_id(&self, name: &str) -> (id: Option<DPackId>)
        requires
            self@.wf(),
        ensures
            match id {
                Some(p) => self@.lookup(name@) == Some(p@),
                None => self@.lookup(name@) is None,
            },
    {
        let key = name.to_owned();
        match find_name(&self.entries, &key) {
            Some(k) => Some(self.entries[k].1),
            None => None,
        }
    }

    /// Records that the index `name` is in pack `id`.
    pub fn insert(&mut self, name: &str, id: DPackId)
        requires
            old(self)@.wf(),
        ensures
            final(self)@ == (DPackIndexView { entries: upsert_named(old(self)@.entries, name@, id@), ..old(self)@ }),
            final(self)@.wf(),
    {
        upsert_entry(&mut self.entries, name.to_owned(), id);
    }

    /// Moves the head to the next pack.
    pub fn increment_head(&mut self)
        requires
            old(self)@.head < u64::MAX,
        ensures
            final(self)@ == (DPackIndexView { head: (old(self)@.head + 1) as u64, ..old(self)@ }),
    {
        self.head = self.head.next();
    }

    /// The stored form of the pack index.
    pub fn to_bytes(&self) -> (output: Vec<u8>)
        ensures
            output@ == serialized_pack_index(self@),
    {
        let ghost es = self@.entries;
        let mut output: Vec<u8> = Vec::new();
        self.head.push_bytes(&mut output);
        push_u64_be(&mut output, self.entries.len() as u64);
        let ghost prefix = output@;
        assert(output@ =~= prefix + ser_pack_entries(es.take(0)));
        let mut i: usize = 0;
        while i < self.entries.len()
            invariant
                es == self@.entries,
                i <= self.entries.len(),
                output@ == prefix + ser_pack_entries(es.take(i as int)),
            decreases self.entries.len() - i,
        {
            push_bytes(&mut output, self.entries[i].0.as_str().as_bytes());
            output.push(0u8);
            self.entries[i].1.push_bytes(&mut output);
            proof {
                assert(es.take(i as int + 1).drop_last() =~= es.take(i as int));
                assert(es[i as int] == (self.entries@[i as int].0@, self.entries@[i as int].1@));
                assert(output@ =~= prefix + ser_pack_entries(es.take(i as int + 1)));
            }
            i = i + 1;
        }
        proof {
            assert(es.take(i as int) =~= es);
        }
        output
    }

    /// Reads a pack index from its stored form.
    #[verifier::loop_isolation(false)]
    pub fn try_from_bytes(data: Vec<u8>) -> (res: Result<DPackIndex, DPackIndexLoadError>)
        ensures
            match parse_pack_index(data@) {
                Some(i) => res matches Ok(index) && index@ == i && index@.wf(),
                None => res matches Err(DPackIndexLoadError::EarlyTermination),
            },
    {
        if data.len() == 0 {
            return Ok(DPackIndex::default());
        }
        let mut iter = ByteIter::new(data);
        let head = match iter.take_u64() {
            Some(n) => DPackId::new(n),
            None => return Err(DPackIndexLoadError::EarlyTermination),
        };
        let size = match iter.take_u64() {
            Some(n) => n,
            None => return Err(DPackIndexLoadError::EarlyTermination),
        };
        let ghost r2 = iter@;
        let mut entries: Vec<(String, DPackId)> = Vec::new();
        let mut i: u64 = 0;
        while i < size
            invariant
                iter.wf(),
                i <= size,
                parse_pack_entries(r2, i as nat) == Some((entries@.map_values(|e: (String, DPackId)| (e.0@, e.1@)), iter@)),
                entry_names(entries@.map_values(|e: (String, DPackId)| (e.0@, e.1@))).no_duplicates(),
            decreases size - i,
        {
            let name_bytes = match iter.take_until(0u8) {
                Some(b) => b,
                None => {
                    proof {
                        lemma_parse_pack_entries_none(r2, i as nat + 1, size as nat);
                    }
                    return Err(DPackIndexLoadError::EarlyTermination);
                },
            };
            let name = string_from_utf8_lossy(name_bytes.as_slice());
            let pack_id = match iter.take_u64() {
                Some(n) => DPackId::new(n),
                None => {
                    proof {
                        lemma_parse_pack_entries_none(r2, i as nat + 1, size as nat);
                    }
                    return Err(DPackIndexLoadError::EarlyTermination);
                },
            };
            proof {
                assert(name@ == lossy_text(name_bytes@));
            }
            upsert_entry(&mut entries, name, pack_id);
            i = i + 1;
        }
        Ok(DPackIndex { entries, head })
    }
}

proof fn lemma_parse_pack_entries_none(s: Seq<u8>, k: nat, n: nat)
    requires
        k <= n,
        parse_pack_entries(s, k) is None,
    ensures
        parse_pack_entries(s, n) is None,
    decreases n - k,
{
    if k < n {
        lemma_parse_pack_entries_none(s, k, (n - 1) as nat);
    }
}

proof fn lemma_parse_pack_entries_roundtrip(es: Seq<(Seq<char>, u64)>, rest: Seq<u8>)
    requires
        entry_names(es).no_duplicates(),
        forall|i: int| 0 <= i < es.len() ==> !(#[trigger] es[i]).0.contains('\0'),
    ensures
        parse_pack_entries(ser_pack_entries(es) + rest, es.len()) == Some((es, rest)),
    decreases es.len(),
{
    if es.len() > 0 {
        let e2 = es.drop_last();
        let (name, id) = es.last();
        let names = entry_names(es);
        let names2 = entry_names(e2);
        assert(names2 =~= names.drop_last());
        assert forall|i: int| 0 <= i < e2.len() implies !(#[trigger] e2[i]).0.contains('\0') by {
            assert(e2[i] == es[i]);
        }
        let tail = encode_utf8(name) + seq![0u8] + u64_be(id) + rest;
        lemma_parse_pack_entries_roundtrip(e2, tail);
        assert(ser_pack_entries(es) + rest =~= ser_pack_entries(e2) + tail);
        assert(!es[es.len() - 1].0.contains('\0'));
        lemma_encode_utf8_avoids(name, '\0');
        lemma_take_until_roundtrip(encode_utf8(name), 0u8, u64_be(id) + rest);
        assert(tail =~= encode_utf8(name) + seq![0u8] + (u64_be(id) + rest));
        lemma_lossy_text_of_encoding(name);
        lemma_take_u64_roundtrip(id, rest);
        assert(!names2.contains(name)) by {
            if names2.contains(name) {
                let k = choose|k: int| 0 <= k < names2.len() && names2[k] == name;
                assert(names[k] == names[names.len() - 1]);
            }
        }
        assert(e2.push((name, id)) =~= es);
    }
}

/// Setting the entry for `name` keeps the names distinct, records `id` for
/// `name`, and leaves every other entry as it was.
pub proof fn lemma_upsert_named(es: Seq<(Seq<char>, u64)>, name: Seq<char>, id: u64)
    requires
        entry_names(es).no_duplicates(),
    ensures
        ({
            let r = upsert_named(es, name, id);
            &&& entry_names(r).no_duplicates()
            &&& (DPackIndexView { entries: r, head: 0 }).lookup(name) == Some(id)
            &&& r.len() <= es.len() + 1
            &&& forall|i: int| 0 <= i < r.len() ==> #[trigger] r[i] == (name, id) || (i < es.len() && r[i] == es[i])
        }),
{
    let names = entry_names(es);
    let r = upsert_named(es, name, id);
    let rn = entry_names(r);
    if names.contains(name) {
        let k = names.index_of(name);
        assert(rn =~= names);
        assert(rn.index_of(name) == k);
    } else {
        assert(rn =~= names.push(name));
        assert forall|a: int, b: int| 0 <= a < rn.len() && 0 <= b < rn.len() && a != b implies rn[a] != rn[b] by {
            if a == names.len() as int {
                assert(names[b] == rn[b]);
            } else if b == names.len() as int {
                assert(names[a] == rn[a]);
            }
        }
        assert(rn[names.len() as int] == name);
        assert(rn.contains(name));
        let j = rn.index_of(name);
        assert(j == names.len() as int) by {
            if j < names.len() {
                assert(names[j] == name);
            }
        }
    }
}

proof fn lemma_parse_pack_entries_truncated(es: Seq<(Seq<char>, u64)>, m: int)
    requires
        entry_names(es).no_duplicates(),
        forall|i: int| 0 <= i < es.len() ==> !(#[trigger] es[i]).0.contains('\0'),
        0 <= m < ser_pack_entries(es).len(),
    ensures
        parse_pack_entries(ser_pack_entries(es).take(m), es.len()) is None,
    decreases es.len(),
{
    let e2 = es.drop_last();
    let (name, id) = es.last();
    let a = ser_pack_entries(e2);
    let en = encode_utf8(name);
    let tail = en + seq![0u8] + u64_be(id);
    assert(ser_pack_entries(es) =~= a + tail);
    assert(entry_names(e2) =~= entry_names(es).drop_last());
    assert forall|i: int| 0 <= i < e2.len() implies !(#[trigger] e2[i]).0.contains('\0') by {
        assert(e2[i] == es[i]);
    }
    let t = ser_pack_entries(es).take(m);
    if m < a.len() {
        assert(t =~= a.take(m));
        lemma_parse_pack_entries_truncated(e2, m);
    } else {
        let partial = tail.take(m - a.len());
        assert(t =~= a + partial);
        lemma_parse_pack_entries_roundtrip(e2, partial);
        assert(!es[es.len() - 1].0.contains('\0'));
        lemma_encode_utf8_avoids(name, '\0');
        if partial.len() <= en.len() {
            assert(partial =~= en.take(partial.len() as int));
            assert(!partial.contains(0u8)) by {
                if partial.contains(0u8) {
                    let k = choose|k: int| 0 <= k < partial.len() && partial[k] == 0u8;
                    assert(en[k] == 0u8);
                }
            }
            lemma_take_until_none(partial, 0u8);
        } else {
            let r = u64_be(id).take(partial.len() - en.len() - 1);
            assert(partial =~= en + seq![0u8] + r);
            lemma_take_until_roundtrip(en, 0u8, r);
        }
    }
}

/// Stored bytes cut short are refused: every proper, non-empty prefix of the
/// stored form of a pack index fails to read. (No bytes at all read as the
/// empty pack index.)
pub proof fn lemma_truncated_pack_index(i: DPackIndexView, k: int)
    requires
        i.storable(),
        0 < k < serialized_pack_index(i).len(),
    ensures
        parse_pack_index(serialized_pack_index(i).take(k)) is None,
{
    let s = serialized_pack_index(i);
    let t = s.take(k);
    let es = i.entries;
    assert(u64_be(i.head).len() == 8);
    assert(u64_be(es.len() as u64).len() == 8);
    if k >= 8 {
        assert(t.skip(8) =~= (u64_be(es.len() as u64) + ser_pack_entries(es)).take(k - 8));
        if k >= 16 {
            assert(t.skip(8).skip(8) =~= ser_pack_entries(es).take(k - 16));
            lemma_take_u64_roundtrip(es.len() as u64, ser_pack_entries(es).take(k - 16));
            assert(u64_be(es.len() as u64) + ser_pack_entries(es).take(k - 16) =~= t.skip(8));
            lemma_parse_pack_entries_truncated(es, k - 16);
        }
    }
}

/// Reading back the stored form of a pack index gives the pack index.
pub proof fn lemma_parse_pack_index_serialized(i: DPackIndexView)
    requires
        i.storable(),
    ensures
        parse_pack_index(serialized_pack_index(i)) == Some(i),
{
    let t2 = ser_pack_entries(i.entries);
    let t1 = u64_be(i.entries.len() as u64) + t2;
    assert(serialized_pack_index(i) =~= u64_be(i.head) + t1);
    lemma_take_u64_roundtrip(i.head, t1);
    lemma_take_u64_roundtrip(i.entries.len() as u64, t2);
    lemma_parse_pack_entries_roundtrip(i.entries, Seq::empty());
    assert(t2 + Seq::<u8>::empty() =~= t2);
    assert(serialized_pack_index(i).len() > 0) by {
        assert(u64_be(i.head).len() == 8);
    }
}

} // verus!
