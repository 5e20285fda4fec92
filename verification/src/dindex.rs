//! The `DIndex`: every stored version of one text file, kept as a table of
//! distinct lines and, per version, a key of line ranges.

use vstd::prelude::*;
use vstd::std_specs::cmp::PartialEqSpecImpl;
use vstd::utf8::encode_utf8;

pub mod errors;
pub mod key;
pub mod range;
pub mod version;
pub mod version_id;

pub use errors::DeserializationError;
pub use key::DIndexKey;
pub use range::DIndexRange;
pub use version::{DIndexVersion, VersionView};
pub use version_id::DIndexVersionId;

use crate::codec::{
    lemma_encode_utf8_avoids, lemma_lossy_text_of_encoding, lemma_take_until_len,
    lemma_take_fixed_roundtrip, lemma_take_u64_roundtrip, lemma_take_until_none, lemma_take_until_roundtrip, lemma_u64_be_roundtrip, lossy_text, push_bytes, push_u64_be,
    string_from_utf8_lossy, take_fixed, take_line, take_u64, take_until, u64_be, ByteIter,
};
use crate::digest::sha256;
use crate::text::{
    add_lines, expand, find_line, join_on, join_strings, lemma_add_lines, lemma_expand_push,
    lemma_add_lines_present, lemma_join_split, lemma_split_join, lemma_split_nonempty, lemma_split_pieces_free_of_sep, run, split_on, split_str, string_views,
};

verus! {

broadcast use version_id::lemma_version_id_len;

/// The identifier of a version whose text is `text`: the digest of its UTF-8 bytes.
pub open spec fn text_version_id(text: Seq<char>) -> Seq<u8> {
    sha256(encode_utf8(text))
}

/// The line number of each piece in the line table `lines`.
pub open spec fn line_numbers(lines: Seq<Seq<char>>, pieces: Seq<Seq<char>>) -> Seq<int> {
    pieces.map_values(|p: Seq<char>| lines.index_of(p))
}

/// The ranges closed so far and the open range after the line numbers `nums`
/// were taken in turn: a number that continues the open range extends it,
/// any other one closes it (when it is not empty) and opens a range of its own.
pub open spec fn key_state(nums: Seq<int>) -> (Seq<(u64, u64)>, (u64, u64))
    decreases nums.len(),
{
    if nums.len() == 0 {
        (Seq::empty(), (0u64, 0u64))
    } else {
        let (done, cur) = key_state(nums.drop_last());
        let n = nums.last();
        if n == cur.1 {
            (done, (cur.0, (n + 1) as u64))
        } else if cur.0 != cur.1 {
            (done.push(cur), (n as u64, (n + 1) as u64))
        } else {
            (done, (n as u64, (n + 1) as u64))
        }
    }
}

/// The key for the line numbers `nums`: the maximal runs of consecutive numbers.
pub open spec fn key_of(nums: Seq<int>) -> Seq<(u64, u64)> {
    let (done, cur) = key_state(nums);
    done.push(cur)
}

proof fn lemma_key_state(nums: Seq<int>)
    requires
        forall|i: int| 0 <= i < nums.len() ==> 0 <= #[trigger] nums[i] < u64::MAX,
    ensures
        ({
            let (done, cur) = key_state(nums);
            &&& cur.0 <= cur.1
            &&& expand(done) + run(cur.0 as int, cur.1 as int) == nums
        }),
    decreases nums.len(),
{
    if nums.len() > 0 {
        let prefix = nums.drop_last();
        lemma_key_state(prefix);
        let (done, cur) = key_state(prefix);
        let n = nums.last();
        assert(nums[nums.len() - 1] == n);
        if n == cur.1 {
            assert(run(cur.0 as int, n + 1) =~= run(cur.0 as int, cur.1 as int).push(n));
            assert(nums =~= prefix.push(n));
        } else if cur.0 != cur.1 {
            lemma_expand_push(done, cur);
            assert(run(n, n + 1) =~= seq![n]);
            assert(nums =~= prefix.push(n));
        } else {
            assert(run(cur.0 as int, cur.1 as int) =~= Seq::<int>::empty());
            assert(run(n, n + 1) =~= seq![n]);
            assert(nums =~= prefix.push(n));
        }
    }
}

/// The ranges of a key cover exactly the line numbers it was built from.
pub proof fn lemma_key_of_expands(nums: Seq<int>)
    requires
        forall|i: int| 0 <= i < nums.len() ==> 0 <= #[trigger] nums[i] < u64::MAX,
    ensures
        expand(key_of(nums)) == nums,
{
    lemma_key_state(nums);
    let (done, cur) = key_state(nums);
    lemma_expand_push(done, cur);
}

proof fn lemma_key_state_ranges(nums: Seq<int>, bound: int)
    requires
        bound <= u64::MAX,
        forall|i: int| 0 <= i < nums.len() ==> 0 <= #[trigger] nums[i] < bound,
    ensures
        ({
            let (done, cur) = key_state(nums);
            &&& cur.0 <= cur.1 <= bound || nums.len() == 0
            &&& nums.len() > 0 ==> cur.0 < cur.1
            &&& forall|i: int| 0 <= i < done.len() ==> (#[trigger] done[i]).0 < done[i].1 <= bound
        }),
    decreases nums.len(),
{
    if nums.len() > 0 {
        let prefix = nums.drop_last();
        lemma_key_state_ranges(prefix, bound);
        assert(nums[nums.len() - 1] == nums.last());
        let (done, cur) = key_state(prefix);
        let n = nums.last();
        if n == cur.1 {
        } else if cur.0 != cur.1 {
            assert(prefix.len() > 0);
            let done2 = done.push(cur);
            assert forall|i: int| 0 <= i < done2.len() implies (#[trigger] done2[i]).0 < done2[i].1 <= bound by {
                if i < done.len() {
                    assert(done2[i] == done[i]);
                }
            }
        } else {
        }
    }
}

/// Every range of the key of line numbers below `bound` is non-empty and ends by `bound`.
pub proof fn lemma_key_ranges_within(nums: Seq<int>, bound: int)
    requires
        nums.len() > 0,
        bound <= u64::MAX,
        forall|i: int| 0 <= i < nums.len() ==> 0 <= #[trigger] nums[i] < bound,
    ensures
        forall|i: int| 0 <= i < key_of(nums).len() ==> (#[trigger] key_of(nums)[i]).0 < key_of(nums)[i].1 <= bound,
{
    lemma_key_state_ranges(nums, bound);
}


/// The bytes of a key: each range as two big-endian numbers.
pub open spec fn ser_ranges(key: Seq<(u64, u64)>) -> Seq<u8>
    decreases key.len(),
{
    if key.len() == 0 {
        Seq::empty()
    } else {
        ser_ranges(key.drop_last()) + u64_be(key.last().0) + u64_be(key.last().1)
    }
}

/// The bytes of one version: its identifier, predecessor and successor,
/// the length of its key and the key.
pub open spec fn ser_version(id: Seq<u8>, v: VersionView) -> Seq<u8> {
    id + v.prev + v.next + u64_be(v.key.len() as u64) + ser_ranges(v.key)
}

pub open spec fn ser_versions(vs: Seq<(Seq<u8>, VersionView)>) -> Seq<u8>
    decreases vs.len(),
{
    if vs.len() == 0 {
        Seq::empty()
    } else {
        ser_versions(vs.drop_last()) + ser_version(vs.last().0, vs.last().1)
    }
}

/// The bytes of the line table: each line in UTF-8, closed by a newline.
pub open spec fn ser_lines(ls: Seq<Seq<char>>) -> Seq<u8>
    decreases ls.len(),
{
    if ls.len() == 0 {
        Seq::empty()
    } else {
        ser_lines(ls.drop_last()) + encode_utf8(ls.last()) + seq![10u8]
    }
}

/// The stored form of an index: its name in UTF-8 closed by a zero byte, the
/// head identifier, the number of versions and the versions, the number of
/// lines and the lines.
pub open spec fn serialized(d: DIndexView) -> Seq<u8> {
    encode_utf8(d.name) + seq![0u8] + d.head + u64_be(d.versions.len() as u64) + ser_versions(d.versions)
        + u64_be(d.lines.len() as u64) + ser_lines(d.lines)
}

/// Reads `n` ranges.
pub open spec fn parse_ranges(s: Seq<u8>, n: nat) -> Option<(Seq<(u64, u64)>, Seq<u8>)>
    decreases n,
{
    if n == 0 {
        Some((Seq::empty(), s))
    } else {
        match parse_ranges(s, (n - 1) as nat) {
            None => None,
            Some((rs, r1)) => match take_u64(r1) {
                None => None,
                Some((a, r2)) => match take_u64(r2) {
                    None => None,
                    Some((b, r3)) => Some((rs.push((a, b)), r3)),
                },
            },
        }
    }
}

/// Reads one version.
pub open spec fn parse_version(s: Seq<u8>) -> Option<((Seq<u8>, VersionView), Seq<u8>)> {
    match take_fixed(s, 32) {
        None => None,
        Some((id, r1)) => match take_fixed(r1, 32) {
            None => None,
            Some((prev, r2)) => match take_fixed(r2, 32) {
                None => None,
                Some((next, r3)) => match take_u64(r3) {
                    None => None,
                    Some((n, r4)) => match parse_ranges(r4, n as nat) {
                        None => None,
                        Some((key, r5)) => Some(((id, VersionView { prev, next, key }), r5)),
                    },
                },
            },
        },
    }
}

/// The versions `vs` with the entry for `id` replaced, or added at the end.
pub open spec fn upsert(vs: Seq<(Seq<u8>, VersionView)>, id: Seq<u8>, v: VersionView) -> Seq<(Seq<u8>, VersionView)> {
    let ids = vs.map_values(|e: (Seq<u8>, VersionView)| e.0);
    if ids.contains(id) {
        vs.update(ids.index_of(id), (id, v))
    } else {
        vs.push((id, v))
    }
}

/// Reads `n` versions; a later version replaces an earlier one with the same identifier.
pub open spec fn parse_versions(s: Seq<u8>, n: nat) -> Option<(Seq<(Seq<u8>, VersionView)>, Seq<u8>)>
    decreases n,
{
    if n == 0 {
        Some((Seq::empty(), s))
    } else {
        match parse_versions(s, (n - 1) as nat) {
            None => None,
            Some((vs, r1)) => match parse_version(r1) {
                None => None,
                Some(((id, v), r2)) => Some((upsert(vs, id, v), r2)),
            },
        }
    }
}

/// Reads `n` lines; a line already read is not added again.
pub open spec fn parse_lines(s: Seq<u8>, n: nat) -> (Seq<Seq<char>>, Seq<u8>)
    decreases n,
{
    if n == 0 {
        (Seq::empty(), s)
    } else {
        let (ls, r1) = parse_lines(s, (n - 1) as nat);
        let (l, r2) = take_line(r1);
        let t = lossy_text(l);
        (if ls.contains(t) { ls } else { ls.push(t) }, r2)
    }
}

/// Reads an index from the front of `s`, and what follows it; `None` where
/// the bytes end early.
pub open spec fn parse_dindex(s: Seq<u8>) -> Option<(DIndexView, Seq<u8>)> {
    match take_until(s, 0u8) {
        None => None,
        Some((name, r1)) => match take_fixed(r1, 32) {
            None => None,
            Some((head, r2)) => match take_u64(r2) {
                None => None,
                Some((m, r3)) => match parse_versions(r3, m as nat) {
                    None => None,
                    Some((versions, r4)) => match take_u64(r4) {
                        None => None,
                        Some((nl, r5)) => {
                            let (lines, r6) = parse_lines(r5, nl as nat);
                            Some((DIndexView { name: lossy_text(name), head, versions, lines }, r6))
                        },
                    },
                },
            },
        },
    }
}


proof fn lemma_parse_ranges_none(s: Seq<u8>, k: nat, n: nat)
    requires
        k <= n,
        parse_ranges(s, k) is None,
    ensures
        parse_ranges(s, n) is None,
    decreases n - k,
{
    if k < n {
        lemma_parse_ranges_none(s, k, (n - 1) as nat);
    }
}

proof fn lemma_parse_versions_none(s: Seq<u8>, k: nat, n: nat)
    requires
        k <= n,
        parse_versions(s, k) is None,
    ensures
        parse_versions(s, n) is None,
    decreases n - k,
{
    if k < n {
        lemma_parse_versions_none(s, k, (n - 1) as nat);
    }
}

proof fn lemma_parse_lines_settled(s: Seq<u8>, k: nat, n: nat)
    requires
        k <= n,
        parse_lines(s, k).1.len() == 0,
        parse_lines(s, k).0.contains(Seq::<char>::empty()),
    ensures
        parse_lines(s, n) == parse_lines(s, k),
    decreases n - k,
{
    if k < n {
        lemma_parse_lines_settled(s, k, (n - 1) as nat);
        let (ls, r) = parse_lines(s, (n - 1) as nat);
        assert(take_until(r, 10u8) is None);
        assert(take_line(r) == (Seq::<u8>::empty(), Seq::<u8>::empty()));
        assert(r =~= Seq::<u8>::empty());
        assert(lossy_text(Seq::<u8>::empty()) == Seq::<char>::empty()) by {
            lemma_lossy_text_of_encoding(Seq::<char>::empty());
            assert(encode_utf8(Seq::<char>::empty()) =~= Seq::<u8>::empty());
        }
    }
}

/// What a `DIndex` holds, as values.
pub struct DIndexView {
    pub name: Seq<char>,
    pub head: Seq<u8>,
    pub versions: Seq<(Seq<u8>, VersionView)>,
    pub lines: Seq<Seq<char>>,
}

impl DIndexView {
    pub open spec fn ids(self) -> Seq<Seq<u8>> {
        self.versions.map_values(|e: (Seq<u8>, VersionView)| e.0)
    }

    pub open spec fn has_version(self, id: Seq<u8>) -> bool {
        self.ids().contains(id)
    }

    pub open spec fn version_pos(self, id: Seq<u8>) -> int {
        self.ids().index_of(id)
    }

    pub open spec fn version(self, id: Seq<u8>) -> VersionView {
        self.versions[self.version_pos(id)].1
    }

    /// No line and no version identifier occurs twice.
    pub open spec fn wf(self) -> bool {
        &&& self.lines.no_duplicates()
        &&& self.ids().no_duplicates()
    }

    /// Every range of `key` lies within the line table.
    pub open spec fn key_fits(self, key: Seq<(u64, u64)>) -> bool {
        forall|i: int| 0 <= i < key.len() ==> #[trigger] key[i].0 <= key[i].1 <= self.lines.len()
    }

    /// The version `id`, where present, can be rebuilt from the line table.
    pub open spec fn readable(self, id: Seq<u8>) -> bool {
        self.has_version(id) ==> self.key_fits(self.version(id).key)
    }

    /// Every version can be rebuilt from the line table.
    pub open spec fn all_readable(self) -> bool {
        forall|i: int| 0 <= i < self.versions.len() ==> self.key_fits(#[trigger] self.versions[i].1.key)
    }

    /// Every version can be rebuilt, and the text it rebuilds has the
    /// version's identifier as its digest.
    pub open spec fn faithful(self) -> bool {
        forall|i: int| 0 <= i < self.versions.len() ==> {
            &&& self.key_fits(#[trigger] self.versions[i].1.key)
            &&& text_version_id(self.data_of(self.versions[i].1.key)) == self.versions[i].0
        }
    }

    /// Every version's predecessor and successor is a stored version.
    pub open spec fn linked(self) -> bool {
        forall|i: int| 0 <= i < self.versions.len() ==> {
            &&& self.has_version(#[trigger] self.versions[i].1.prev)
            &&& self.has_version(self.versions[i].1.next)
        }
    }

    /// The index can be written and read back unchanged: no duplicates, no
    /// zero character in the name, no newline in a line, identifiers of 32
    /// bytes and counts that fit in 64 bits.
    pub open spec fn storable(self) -> bool {
        &&& self.wf()
        &&& !self.name.contains('\0')
        &&& forall|i: int| 0 <= i < self.lines.len() ==> !(#[trigger] self.lines[i]).contains('\n')
        &&& self.head.len() == 32
        &&& self.versions.len() <= u64::MAX
        &&& self.lines.len() <= u64::MAX
        &&& forall|i: int| 0 <= i < self.versions.len() ==> entry_storable(#[trigger] self.versions[i])
    }

    /// The text that `key` stands for: its lines, joined by newlines.
    pub open spec fn data_of(self, key: Seq<(u64, u64)>) -> Seq<char> {
        join_on(expand(key).map_values(|k: int| self.lines[k]), '\n')
    }

    /// The line table after the lines of `data` were added.
    pub open spec fn lines_with(self, data: Seq<char>) -> Seq<Seq<char>> {
        add_lines(self.lines, split_on(data, '\n'))
    }

    /// The key of `data` in the line table after its lines were added.
    pub open spec fn key_for(self, data: Seq<char>) -> Seq<(u64, u64)> {
        key_of(line_numbers(self.lines_with(data), split_on(data, '\n')))
    }

    /// The index after `data` was stored as a new version and made the head:
    /// a version that was already present keeps its entry, the old head
    /// points forward to the new one.
    pub open spec fn inserted(self, data: Seq<char>) -> DIndexView {
        let id = text_version_id(data);
        let versions = if self.has_version(id) {
            self.versions
        } else {
            self.versions.push((id, VersionView { prev: self.head, next: id, key: self.key_for(data) }))
        };
        let k = self.version_pos(self.head);
        DIndexView {
            name: self.name,
            head: id,
            versions: versions.update(k, (self.head, VersionView { next: id, ..versions[k].1 })),
            lines: self.lines_with(data),
        }
    }
}

/// An index holding the line table `[""]` plus the lines of `data`, and `data`
/// as its one version, which is its own predecessor and successor.
pub open spec fn created(name: Seq<char>, data: Seq<char>) -> DIndexView {
    let start = DIndexView { name, head: text_version_id(data), versions: Seq::empty(), lines: seq![Seq::<char>::empty()] };
    let id = text_version_id(data);
    DIndexView {
        name,
        head: id,
        versions: seq![(id, VersionView { prev: id, next: id, key: start.key_for(data) })],
        lines: start.lines_with(data),
    }
}

#[derive(Debug, Clone)]
pub struct DIndex {
    name: String,
    head: DIndexVersionId,
    version_map: Vec<(DIndexVersionId, DIndexVersion)>,
    lines: Vec<String>,
}

impl View for DIndex {
    type V = DIndexView;

    closed spec fn view(&self) -> DIndexView {
        DIndexView {
            name: self.name@,
            head: self.head@,
            versions: self.version_map@.map_values(|e: (DIndexVersionId, DIndexVersion)| (e.0@, e.1@)),
            lines: string_views(self.lines@),
        }
    }
}


impl DIndexView {
    /// The same name, head and line table, and the same versions in any
    /// order: the equality of two indexes.
    pub open spec fn same_as(self, other: DIndexView) -> bool {
        &&& self.name == other.name
        &&& self.head == other.head
        &&& self.lines == other.lines
        &&& self.versions.len() == other.versions.len()
        &&& forall|i: int| 0 <= i < self.versions.len() ==> other.versions.contains(#[trigger] self.versions[i])
    }
}

/// Whether `vs` holds version `v` under identifier `id`.
fn holds_version(vs: &Vec<(DIndexVersionId, DIndexVersion)>, id: &DIndexVersionId, v: &DIndexVersion) -> (found: bool)
    ensures
        found == vs@.map_values(|e: (DIndexVersionId, DIndexVersion)| (e.0@, e.1@)).contains((id@, v@)),
{
    let ghost m = vs@.map_values(|e: (DIndexVersionId, DIndexVersion)| (e.0@, e.1@));
    let mut j: usize = 0;
    while j < vs.len()
        invariant
            m == vs@.map_values(|e: (DIndexVersionId, DIndexVersion)| (e.0@, e.1@)),
            j <= vs.len(),
            forall|k: int| 0 <= k < j ==> m[k] != (id@, v@),
        decreases vs.len() - j,
    {
        if vs[j].0.same_as(id) && vs[j].1.same_version(v) {
            assert(m[j as int] == (id@, v@));
            return true;
        }
        j = j + 1;
    }
    proof {
        if m.contains((id@, v@)) {
            let k = choose|k: int| 0 <= k < m.len() && m[k] == (id@, v@);
            assert(m[k] != (id@, v@));
        }
    }
    false
}

/// Whether two line tables hold the same lines in the same order.
fn same_lines(a: &Vec<String>, b: &Vec<String>) -> (same: bool)
    ensures
        same == (string_views(a@) == string_views(b@)),
{
    if a.len() != b.len() {
        assert(string_views(a@).len() != string_views(b@).len());
        return false;
    }
    let mut i: usize = 0;
    while i < a.len()
        invariant
            a.len() == b.len(),
            i <= a.len(),
            forall|k: int| 0 <= k < i ==> a@[k]@ == b@[k]@,
        decreases a.len() - i,
    {
        if a[i] != b[i] {
            assert(string_views(a@)[i as int] != string_views(b@)[i as int]);
            return false;
        }
        i = i + 1;
    }
    assert(string_views(a@) =~= string_views(b@));
    true
}

impl PartialEq for DIndex {
    /// Two indexes are equal where they have the same name, head and line
    /// table and the same versions, whatever the order of the versions.
    fn eq(&self, other: &DIndex) -> (same: bool) {
        if self.name != other.name || !self.head.same_as(&other.head) || !same_lines(&self.lines, &other.lines)
            || self.version_map.len() != other.version_map.len() {
            return false;
        }
        let ghost a = self@.versions;
        let mut i: usize = 0;
        while i < self.version_map.len()
            invariant
                a == self@.versions,
                self.version_map.len() == other.version_map.len(),
                i <= self.version_map.len(),
                forall|k: int| 0 <= k < i ==> other@.versions.contains(#[trigger] a[k]),
            decreases self.version_map.len() - i,
        {
            let found = holds_version(&other.version_map, &self.version_map[i].0, &self.version_map[i].1);
            assert(a[i as int] == (self.version_map@[i as int].0@, self.version_map@[i as int].1@));
            if !found {
                return false;
            }
            i = i + 1;
        }
        true
    }
}

impl PartialEqSpecImpl for DIndex {
    open spec fn obeys_eq_spec() -> bool {
        true
    }

    open spec fn eq_spec(&self, other: &DIndex) -> bool {
        self@.same_as(other@)
    }
}

impl DIndex {
    /// An index named `name` that holds `data` as its one version.
    pub fn new(name: &str, data: &str) -> (index: DIndex)
        ensures
            index@ == created(name@, data@),
            index@.wf(),
            index@.all_readable(),
            index@.faithful(),
            index@.has_version(index@.head),
            index@.linked(),
            !name@.contains('\0') ==> index@.storable(),
    {
        let mut lines: Vec<String> = Vec::new();
        lines.push(String::new());
        let mut index = DIndex {
            name: name.to_owned(),
            head: DIndexVersionId::default(),
            version_map: Vec::new(),
            lines,
        };
        proof {
            assert(index@.lines =~= seq![Seq::<char>::empty()]);
            assert(index@.versions =~= Seq::<(Seq<u8>, VersionView)>::empty());
        }
        index.head = DIndexVersionId::from_version_data(data.as_bytes());
        let ghost start = index@;
        let data_key = index.key_from_data(data);
        let head = index.head;
        index.version_map.push((head, DIndexVersion::new(head, head, data_key)));
        proof {
            let v = index@;
            assert(v.versions =~= created(name@, data@).versions);
            assert(v.lines =~= created(name@, data@).lines);
            assert(v.ids() =~= seq![v.head]);
            assert(v.has_version(v.head)) by {
                assert(v.ids()[0] == v.head);
            }
            assert(v.version(v.head) == v.versions[0].1);
        }
        let n = index.lines.len();
        let key_len = index.version_map[0].1.key_len();
        proof {
            assert(index@.lines.len() == n);
            lemma_created_faithful(name@, data@);
            lemma_created_linked(name@, data@);
            let v = index@;
            assert(seq![Seq::<char>::empty()].no_duplicates());
            assert(!Seq::<char>::empty().contains('\n'));
            lemma_lines_with_clean(start, data@);
            assert(entry_storable(v.versions[0]));
            assert forall|i: int| 0 <= i < v.versions.len() implies entry_storable(#[trigger] v.versions[i]) by {
                assert(i == 0);
            }
        }
        index
    }

    /// The identifier of the newest version.
    pub fn head(&self) -> (id: DIndexVersionId)
        ensures
            id@ == self@.head,
    {
        self.head
    }

    /// The name of the stored file.
    pub fn name(&self) -> (name: String)
        ensures
            name@ == self@.name,
    {
        self.name.clone()
    }

    /// The line table.
    pub fn lines(&self) -> (lines: &Vec<String>)
        ensures
            string_views(lines@) == self@.lines,
    {
        &self.lines
    }

    /// The number of distinct lines stored.
    pub fn line_count(&self) -> (n: usize)
        ensures
            n == self@.lines.len(),
    {
        self.lines.len()
    }

    /// The number of stored versions.
    pub fn version_count(&self) -> (n: usize)
        ensures
            n == self@.versions.len(),
    {
        self.version_map.len()
    }

    fn find_version(&self, id: &DIndexVersionId) -> (pos: Option<usize>)
        ensures
            match pos {
                Some(k) => k < self@.versions.len() && self@.versions[k as int].0 == id@
                    && (self@.wf() ==> k == self@.version_pos(id@)) && self@.has_version(id@),
                None => !self@.has_version(id@),
            },
    {
        let mut k: usize = 0;
        while k < self.version_map.len()
            invariant
                k <= self.version_map.len(),
                forall|j: int| 0 <= j < k ==> self@.versions[j].0 != id@,
            decreases self.version_map.len() - k,
        {
            if self.version_map[k].0.same_as(id) {
                proof {
                    let ids = self@.ids();
                    assert(ids[k as int] == id@);
                    assert(ids.contains(id@));
                }
                return Some(k);
            }
            k = k + 1;
        }
        proof {
            let ids = self@.ids();
            if ids.contains(id@) {
                let j = choose|j: int| 0 <= j < ids.len() && ids[j] == id@;
                assert(self@.versions[j].0 == id@);
            }
        }
        None
    }

    /// Adds the lines of `version_data` that the table lacks and returns the key
    /// that rebuilds `version_data` from the table.
    pub fn key_from_data(&mut self, version_data: &str) -> (key: DIndexKey)
        requires
            old(self)@.wf(),
        ensures
            final(self)@ == (DIndexView { lines: old(self)@.lines_with(version_data@), ..old(self)@ }),
            key@ == old(self)@.key_for(version_data@),
            final(self)@.wf(),
            final(self)@.key_fits(key@),
            final(self)@.data_of(key@) == version_data@,
            old(self)@.all_readable() ==> final(self)@.all_readable(),
    {
        let pieces = split_str(version_data, '\n');
        let ghost ps = split_on(version_data@, '\n');
        let ghost old_lines = self@.lines;
        proof {
            lemma_add_lines(old_lines, ps);
        }
        let mut i: usize = 0;
        while i < pieces.len()
            invariant
                string_views(pieces@) == ps,
                i <= pieces.len(),
                old_lines.no_duplicates(),
                self@.lines == add_lines(old_lines, ps.take(i as int)),
                self.name == old(self).name,
                self.head == old(self).head,
                self.version_map == old(self).version_map,
            decreases pieces.len() - i,
        {
            proof {
                assert(ps.take(i as int + 1).drop_last() =~= ps.take(i as int));
                assert(ps.take(i as int + 1).last() == pieces@[i as int]@);
                lemma_add_lines(old_lines, ps.take(i as int));
            }
            match find_line(&self.lines, &pieces[i]) {
                Some(k) => {
                    proof {
                        assert(self@.lines[k as int] == pieces@[i as int]@);
                        assert(self@.lines.contains(pieces@[i as int]@));
                    }
                },
                None => {
                    let line = pieces[i].clone();
                    let ghost before = self.lines@;
                    self.lines.push(line);
                    proof {
                        assert(string_views(self.lines@) =~= string_views(before).push(pieces@[i as int]@));
                    }
                },
            }
            i = i + 1;
        }
        let total = self.lines.len();
        proof {
            assert(ps.take(pieces.len() as int) =~= ps);
            assert(self@.lines.len() == total);
            lemma_key_rebuilds(old(self)@, version_data@);
        }
        let ghost lines = self@.lines;
        let ghost nums = line_numbers(lines, ps);
        proof {
            assert forall|j: int| 0 <= j < ps.len() implies lines.contains(#[trigger] ps[j]) by {}
        }
        let mut ranges: Vec<DIndexRange> = Vec::new();
        let mut range_start: u64 = 0;
        let mut range_end: u64 = 0;
        let mut j: usize = 0;
        while j < pieces.len()
            invariant
                string_views(pieces@) == ps,
                j <= pieces.len(),
                self@.lines == lines,
                lines.no_duplicates(),
                lines.len() <= usize::MAX,
                forall|x: int| 0 <= x < ps.len() ==> lines.contains(#[trigger] ps[x]),
                nums == line_numbers(lines, ps),
                key_state(nums.take(j as int)) == (ranges@.map_values(|r: DIndexRange| r@), (range_start, range_end)),
            decreases pieces.len() - j,
        {
            let found = find_line(&self.lines, &pieces[j]);
            proof {
                assert(lines.contains(ps[j as int]));
                assert(ps[j as int] == pieces@[j as int]@);
            }
            let line_num = found.unwrap();
            let n = line_num as u64;
            proof {
                assert(nums.take(j as int + 1).drop_last() =~= nums.take(j as int));
                assert(nums[j as int] == n as int);
            }
            let ghost before = ranges@;
            if n == range_end {
                range_end = n + 1;
            } else {
                if range_start != range_end {
                    ranges.push(DIndexRange::from_bounds(range_start, range_end));
                    proof {
                        assert(ranges@.map_values(|r: DIndexRange| r@) =~= before.map_values(|r: DIndexRange| r@).push((range_start, range_end)));
                    }
                }
                range_start = n;
                range_end = n + 1;
            }
            j = j + 1;
        }
        let ghost before = ranges@;
        ranges.push(DIndexRange::from_bounds(range_start, range_end));
        proof {
            assert(nums.take(pieces.len() as int) =~= nums);
            assert(ranges@.map_values(|r: DIndexRange| r@) =~= before.map_values(|r: DIndexRange| r@).push((range_start, range_end)));
        }
        let key = DIndexKey::from_ranges(ranges);
        proof {
            let v = self@;
            if old(self)@.all_readable() {
                assert(v.versions == old(self)@.versions);
                lemma_all_readable_more_lines(old(self)@, v);
            }
        }
        key
    }

    /// The text that `key` stands for: its lines, joined by newlines.
    pub fn data_from_key(&self, key: &DIndexKey) -> (data: String)
        requires
            self@.key_fits(key@),
        ensures
            data@ == self@.data_of(key@),
    {
        let ranges = key.ranges();
        let ghost lines = self@.lines;
        let total = self.lines.len();
        assert(lines.len() == total);
        let mut data: Vec<String> = Vec::new();
        let mut r: usize = 0;
        while r < ranges.len()
            invariant
                ranges@.map_values(|x: DIndexRange| x@) == key@,
                self@.key_fits(key@),
                lines == self@.lines,
                lines.len() == total,
                r <= ranges.len(),
                string_views(data@) == expand(key@.take(r as int)).map_values(|k: int| lines[k]),
            decreases ranges.len() - r,
        {
            let start = ranges[r].start();
            let end = ranges[r].end();
            proof {
                assert(key@[r as int] == (start, end));
                assert(start <= end <= lines.len());
                assert(key@.take(r as int + 1).drop_last() =~= key@.take(r as int));
                lemma_expand_push(key@.take(r as int), (start, end));
                assert(key@.take(r as int).push((start, end)) =~= key@.take(r as int + 1));
            }
            let ghost prefix = expand(key@.take(r as int)).map_values(|k: int| lines[k]);
            let mut k: usize = start as usize;
            while k < end as usize
                invariant
                    start <= k <= end <= lines.len(),
                    lines == self@.lines,
                    string_views(data@) == prefix + run(start as int, k as int).map_values(|k: int| lines[k]),
                decreases end - k,
            {
                let ghost before = data@;
                data.push(self.lines[k].clone());
                proof {
                    assert(run(start as int, k as int + 1) =~= run(start as int, k as int).push(k as int));
                    assert(string_views(data@) =~= string_views(before).push(lines[k as int]));
                    assert(run(start as int, k as int + 1).map_values(|k: int| lines[k]) =~= run(start as int, k as int).map_values(|k: int| lines[k]).push(lines[k as int]));
                }
                k = k + 1;
            }
            proof {
                let e = expand(key@.take(r as int));
                assert((e + run(start as int, end as int)).map_values(|k: int| lines[k]) =~= prefix + run(start as int, end as int).map_values(|k: int| lines[k]));
            }
            r = r + 1;
        }
        proof {
            assert(key@.take(ranges.len() as int) =~= key@);
        }
        join_strings(&data, '\n')
    }

    /// Stores `version_data` as a new version, makes it the head and returns its
    /// identifier. A version with the same identifier keeps its stored entry.
    pub fn insert_version(&mut self, version_data: &str) -> (version_id: DIndexVersionId)
        requires
            old(self)@.wf(),
            old(self)@.has_version(old(self)@.head),
        ensures
            version_id@ == text_version_id(version_data@),
            final(self)@ == old(self)@.inserted(version_data@),
            final(self)@.wf(),
            final(self)@.has_version(final(self)@.head),
            old(self)@.all_readable() ==> final(self)@.all_readable(),
            old(self)@.faithful() ==> final(self)@.faithful(),
            old(self)@.storable() ==> final(self)@.storable(),
            old(self)@.linked() ==> final(self)@.linked(),
    {
        let version_id = DIndexVersionId::from_version_data(version_data.as_bytes());
        let ghost start = self@;
        let data_key = self.key_from_data(version_data);
        let key_len = data_key.len();
        let ghost mid = self@;
        let ghost key_fits = self@.key_fits(data_key@);
        match self.find_version(&version_id) {
            Some(_) => {},
            None => {
                let head = self.head;
                let ghost before = self.version_map@;
                self.version_map.push((version_id, DIndexVersion::new(head, version_id, data_key)));
                proof {
                    assert(self@.versions =~= mid.versions.push((version_id@, VersionView { prev: head@, next: version_id@, key: start.key_for(version_data@) })));
                    assert(self@.ids() =~= mid.ids().push(version_id@));
                    assert(self@.ids().no_duplicates()) by {
                        assert forall|a: int, b: int| 0 <= a < self@.ids().len() && 0 <= b < self@.ids().len() && a != b implies self@.ids()[a] != self@.ids()[b] by {
                            if a == mid.ids().len() as int {
                                assert(self@.ids()[a] == version_id@);
                                assert(mid.ids()[b] == self@.ids()[b]);
                            } else if b == mid.ids().len() as int {
                                assert(mid.ids()[a] == self@.ids()[a]);
                            }
                        }
                    }
                    assert(mid.has_version(start.head));
                    let kh = mid.ids().index_of(start.head);
                    assert(self@.ids()[kh] == start.head);
                    assert(self@.has_version(start.head));
                    assert(self@.version_pos(start.head) == kh);
                }
            },
        }
        let ghost after_push = self@;
        proof {
            assert(after_push.has_version(start.head));
            assert(after_push.version_pos(start.head) == start.version_pos(start.head));
            if start.all_readable() {
                assert forall|x: int| 0 <= x < after_push.versions.len() implies after_push.key_fits(#[trigger] after_push.versions[x].1.key) by {
                    if x < mid.versions.len() {
                        assert(mid.key_fits(mid.versions[x].1.key));
                    }
                }
            }
        }
        self.update_head(version_id);
        let n = self.lines.len();
        let nv = self.version_map.len();
        proof {
            assert(self@.lines.len() == n);
            assert(self@.versions.len() == nv);
            if start.faithful() {
                lemma_inserted_faithful(start, version_data@);
            }

            let v = self@;
            let spec_v = start.inserted(version_data@);
            assert(v.versions =~= spec_v.versions);
            assert(v.ids() =~= after_push.ids());
            assert(v.has_version(v.head)) by {
                assert(after_push.has_version(version_id@)) by {
                    if mid.has_version(version_id@) {
                        let k = mid.ids().index_of(version_id@);
                        assert(after_push.ids()[k] == version_id@);
                    } else {
                        assert(after_push.ids()[after_push.ids().len() - 1] == version_id@);
                    }
                }
            }
            if start.all_readable() {
                assert forall|x: int| 0 <= x < v.versions.len() implies v.key_fits(#[trigger] v.versions[x].1.key) by {
                    assert(after_push.key_fits(after_push.versions[x].1.key));
                }
            }
        }
        proof {
            if start.storable() {
                assert(self@ == start.inserted(version_data@));
                assert(key_len == start.key_for(version_data@).len());
                lemma_inserted_storable(start, version_data@);
            }
            if start.linked() {
                lemma_inserted_linked(start, version_data@);
            }
        }
        version_id
    }

    /// Points the head version forward to `new_head` and makes `new_head` the head.
    fn update_head(&mut self, new_head: DIndexVersionId)
        requires
            old(self)@.wf(),
            old(self)@.has_version(old(self)@.head),
        ensures
            ({
                let k = old(self)@.version_pos(old(self)@.head);
                final(self)@ == (DIndexView {
                    head: new_head@,
                    versions: old(self)@.versions.update(k, (old(self)@.head, VersionView { next: new_head@, ..old(self)@.versions[k].1 })),
                    ..old(self)@
                })
            }),
    {
        let k = self.find_version(&self.head).unwrap();
        let (id, mut prev_head) = self.version_map.remove(k);
        prev_head.set_next(new_head);
        self.version_map.insert(k, (id, prev_head));
        self.head = new_head;
        proof {
            let k = k as int;
            let spec_versions = old(self)@.versions.update(k, (old(self)@.head, VersionView { next: new_head@, ..old(self)@.versions[k].1 }));
            assert(self@.versions =~= spec_versions);
        }
    }


    /// The stored form of the index.
    pub fn to_bytes(&self) -> (output: Vec<u8>)
        ensures
            output@ == serialized(self@),
    {
        let ghost d = self@;
        let mut output: Vec<u8> = Vec::new();
        push_bytes(&mut output, self.name.as_str().as_bytes());
        output.push(0u8);
        let head = self.head.into_bytes();
        push_bytes(&mut output, head.as_slice());
        push_u64_be(&mut output, self.version_map.len() as u64);
        let ghost prefix = encode_utf8(d.name) + seq![0u8] + d.head + u64_be(d.versions.len() as u64);
        assert(output@ =~= prefix + ser_versions(d.versions.take(0)));
        let mut i: usize = 0;
        while i < self.version_map.len()
            invariant
                d == self@,
                i <= self.version_map.len(),
                output@ == prefix + ser_versions(d.versions.take(i as int)),
            decreases self.version_map.len() - i,
        {
            let ghost before = output@;
            let id = self.version_map[i].0.into_bytes();
            let version = &self.version_map[i].1;
            push_bytes(&mut output, id.as_slice());
            let prev = version.prev().into_bytes();
            push_bytes(&mut output, prev.as_slice());
            let next = version.next().into_bytes();
            push_bytes(&mut output, next.as_slice());
            push_u64_be(&mut output, version.key_len() as u64);
            let ranges = version.data_key().ranges();
            let ghost key = version@.key;
            let ghost mid = output@;
            assert(mid =~= mid + ser_ranges(key.take(0)));
            let mut j: usize = 0;
            while j < ranges.len()
                invariant
                    ranges@.map_values(|r: DIndexRange| r@) == key,
                    j <= ranges.len(),
                    output@ == mid + ser_ranges(key.take(j as int)),
                decreases ranges.len() - j,
            {
                push_u64_be(&mut output, ranges[j].start());
                push_u64_be(&mut output, ranges[j].end());
                proof {
                    assert(key.take(j as int + 1).drop_last() =~= key.take(j as int));
                    assert(key[j as int] == ranges@[j as int]@);
                }
                j = j + 1;
            }
            proof {
                assert(key.take(j as int) =~= key);
                assert(d.versions.take(i as int + 1).drop_last() =~= d.versions.take(i as int));
                let e = d.versions[i as int];
                assert(e.0 == id@);
                assert(e.1 == version@);
                assert(output@ =~= prefix + ser_versions(d.versions.take(i as int + 1)));
            }
            i = i + 1;
        }
        push_u64_be(&mut output, self.lines.len() as u64);
        let ghost prefix2 = output@;
        assert(output@ =~= prefix2 + ser_lines(d.lines.take(0)));
        let mut k: usize = 0;
        while k < self.lines.len()
            invariant
                d == self@,
                k <= self.lines.len(),
                output@ == prefix2 + ser_lines(d.lines.take(k as int)),
            decreases self.lines.len() - k,
        {
            push_bytes(&mut output, self.lines[k].as_str().as_bytes());
            output.push(10u8);
            proof {
                assert(d.lines.take(k as int + 1).drop_last() =~= d.lines.take(k as int));
                assert(d.lines[k as int] == self.lines@[k as int]@);
                assert(output@ =~= prefix2 + ser_lines(d.lines.take(k as int + 1)));
            }
            k = k + 1;
        }
        proof {
            assert(d.versions.take(i as int) =~= d.versions);
            assert(d.lines.take(k as int) =~= d.lines);
            assert(output@ =~= serialized(d));
        }
        output
    }

    /// Reads an index from the front of the bytes left in `iter`.
    pub fn from_byte_iter(iter: &mut ByteIter) -> (res: Result<DIndex, DeserializationError>)
        requires
            old(iter).wf(),
        ensures
            final(iter).wf(),
            match parse_dindex(old(iter)@) {
                Some((d, rest)) => res matches Ok(index) && index@ == d && index@.wf() && final(iter)@ == rest,
                None => res matches Err(e) && e@ == "File ended early."@,
            },
    {
        let ghost s0 = iter@;
        let name_bytes = match iter.take_until(0u8) {
            Some(b) => b,
            None => return Err(DeserializationError::new("File ended early.")),
        };
        let name = string_from_utf8_lossy(name_bytes.as_slice());
        let head = match iter.take_array32() {
            Some(a) => DIndexVersionId::from_bytes(a),
            None => return Err(DeserializationError::new("File ended early.")),
        };
        let map_size = match iter.take_u64() {
            Some(n) => n,
            None => return Err(DeserializationError::new("File ended early.")),
        };
        let version_map = match read_versions(iter, map_size) {
            Some(v) => v,
            None => return Err(DeserializationError::new("File ended early.")),
        };
        let num_lines = match iter.take_u64() {
            Some(n) => n,
            None => return Err(DeserializationError::new("File ended early.")),
        };
        let lines = read_lines(iter, num_lines);
        let index = DIndex { name, head, version_map, lines };
        proof {
            assert(name@ == lossy_text(name_bytes@));
            assert(index@ == parse_dindex(s0).unwrap().0);
            assert(index@.ids() =~= index.version_map@.map_values(|e: (DIndexVersionId, DIndexVersion)| e.0@));
            assert(index@.wf());
            assert(iter@ == parse_dindex(s0).unwrap().1);
        }
        Ok(index)
    }

    /// Reads an index from its stored form; bytes after it are ignored.
    pub fn try_from_bytes(data: Vec<u8>) -> (res: Result<DIndex, DeserializationError>)
        ensures
            match parse_dindex(data@) {
                Some((d, _)) => res matches Ok(index) && index@ == d && index@.wf(),
                None => res matches Err(e) && e@ == "File ended early."@,
            },
    {
        let mut iter = ByteIter::new(data);
        DIndex::from_byte_iter(&mut iter)
    }


    /// Whether the version `id` is stored.
    pub fn has_version(&self, id: DIndexVersionId) -> (found: bool)
        ensures
            found == self@.has_version(id@),
    {
        self.find_version(&id).is_some()
    }

    /// Whether the version `id`, where stored, can be rebuilt from the line table.
    pub fn is_readable(&self, id: DIndexVersionId) -> (readable: bool)
        requires
            self@.wf(),
        ensures
            readable == self@.readable(id@),
    {
        match self.find_version(&id) {
            None => true,
            Some(k) => {
                let ranges = self.version_map[k].1.data_key().ranges();
                let ghost key = self@.versions[k as int].1.key;
                let total = self.lines.len();
                assert(self@.version(id@).key == key);
                let mut j: usize = 0;
                while j < ranges.len()
                    invariant
                        self@.has_version(id@),
                        self@.version(id@).key == key,
                        ranges@.map_values(|r: DIndexRange| r@) == key,
                        total == self@.lines.len(),
                        j <= ranges.len(),
                        forall|i: int| 0 <= i < j ==> #[trigger] key[i].0 <= key[i].1 <= total,
                    decreases ranges.len() - j,
                {
                    let start = ranges[j].start();
                    let end = ranges[j].end();
                    assert(key[j as int] == (start, end));
                    if !(start <= end && end <= total as u64) {
                        return false;
                    }
                    j = j + 1;
                }
                assert(key.len() == ranges@.len());
                assert forall|i: int| 0 <= i < key.len() implies #[trigger] key[i].0 <= key[i].1 <= self@.lines.len() by {
                    assert(key[i].0 <= key[i].1 <= total);
                }
                assert(self@.key_fits(key));
                true
            },
        }
    }

    /// The stored version `id`, if there is one.
    pub fn get_version(&self, id: DIndexVersionId) -> (version: Option<&DIndexVersion>)
        requires
            self@.wf(),
        ensures
            match version {
                Some(v) => self@.has_version(id@) && v@ == self@.version(id@),
                None => !self@.has_version(id@),
            },
    {
        match self.find_version(&id) {
            Some(k) => Some(&self.version_map[k].1),
            None => None,
        }
    }

    /// The text of the stored version `id`, if there is one.
    pub fn get_version_data(&self, id: DIndexVersionId) -> (data: Option<String>)
        requires
            self@.wf(),
            self@.readable(id@),
        ensures
            match data {
                Some(d) => self@.has_version(id@) && d@ == self@.data_of(self@.version(id@).key),
                None => !self@.has_version(id@),
            },
    {
        match self.get_version(id) {
            Some(v) => Some(self.data_from_key(v.data_key())),
            None => None,
        }
    }
}

proof fn lemma_all_readable_more_lines(a: DIndexView, b: DIndexView)
    requires
        a.all_readable(),
        b.versions == a.versions,
        b.lines.len() >= a.lines.len(),
    ensures
        b.all_readable(),
{
    assert forall|x: int| 0 <= x < b.versions.len() implies b.key_fits(#[trigger] b.versions[x].1.key) by {
        let kk = a.versions[x].1.key;
        assert(a.key_fits(kk));
        assert forall|i: int| 0 <= i < kk.len() implies #[trigger] kk[i].0 <= kk[i].1 <= b.lines.len() by {
            assert(kk[i].0 <= kk[i].1 <= a.lines.len());
        }
    }
}


proof fn lemma_data_of_more_lines(a: DIndexView, b: DIndexView, key: Seq<(u64, u64)>)
    requires
        a.key_fits(key),
        b.lines.len() >= a.lines.len(),
        b.lines.subrange(0, a.lines.len() as int) == a.lines,
    ensures
        b.key_fits(key),
        b.data_of(key) == a.data_of(key),
{
    lemma_expand_below(key, a.lines.len() as int);
    let e = expand(key);
    assert forall|i: int| 0 <= i < key.len() implies #[trigger] key[i].0 <= key[i].1 <= b.lines.len() by {
        assert(key[i].0 <= key[i].1 <= a.lines.len());
    }
    assert(e.map_values(|k: int| b.lines[k]) =~= e.map_values(|k: int| a.lines[k])) by {
        assert forall|i: int| 0 <= i < e.len() implies b.lines[e[i]] == a.lines[e[i]] by {
            assert(0 <= e[i] < a.lines.len());
            assert(b.lines.subrange(0, a.lines.len() as int)[e[i]] == b.lines[e[i]]);
        }
    }
}

proof fn lemma_expand_below(key: Seq<(u64, u64)>, bound: int)
    requires
        forall|i: int| 0 <= i < key.len() ==> #[trigger] key[i].0 <= key[i].1 <= bound,
    ensures
        forall|i: int| 0 <= i < expand(key).len() ==> 0 <= #[trigger] expand(key)[i] < bound,
    decreases key.len(),
{
    if key.len() > 0 {
        let prefix = key.drop_last();
        assert forall|i: int| 0 <= i < prefix.len() implies #[trigger] prefix[i].0 <= prefix[i].1 <= bound by {
            assert(prefix[i] == key[i]);
        }
        lemma_expand_below(prefix, bound);
        assert(key[key.len() - 1] == key.last());
        lemma_expand_push(prefix, key.last());
        assert(prefix.push(key.last()) =~= key);
        let e0 = expand(prefix);
        let r = run(key.last().0 as int, key.last().1 as int);
        assert forall|i: int| 0 <= i < expand(key).len() implies 0 <= #[trigger] expand(key)[i] < bound by {
            if i < e0.len() {
                assert(expand(key)[i] == e0[i]);
            } else {
                assert(expand(key)[i] == r[i - e0.len()]);
            }
        }
    }
}

/// A newly created index is faithful: its one version rebuilds `data`.
pub proof fn lemma_created_faithful(name: Seq<char>, data: Seq<char>)
    requires
        created(name, data).lines.len() <= usize::MAX,
    ensures
        created(name, data).faithful(),
        created(name, data).data_of(created(name, data).version(text_version_id(data)).key) == data,
{
    let start = DIndexView { name, head: text_version_id(data), versions: Seq::empty(), lines: seq![Seq::<char>::empty()] };
    let c = created(name, data);
    assert(start.lines.no_duplicates());
    lemma_key_rebuilds(start, data);
    assert(c.ids() =~= seq![text_version_id(data)]);
    assert(c.ids()[0] == text_version_id(data));
    assert(c.has_version(text_version_id(data)));
    assert(c.version_pos(text_version_id(data)) == 0);
    let key = start.key_for(data);
    let d2 = DIndexView { lines: start.lines_with(data), ..start };
    assert(c.lines == d2.lines);
    assert(c.key_fits(key) == d2.key_fits(key));
    assert(c.data_of(key) == d2.data_of(key));
    assert(c.versions[0].1.key == key);
    assert(c.versions[0].0 == text_version_id(data));
}

/// Storing a version keeps an index faithful.
pub proof fn lemma_inserted_faithful(d: DIndexView, data: Seq<char>)
    requires
        d.wf(),
        d.has_version(d.head),
        d.faithful(),
        d.lines_with(data).len() <= usize::MAX,
    ensures
        d.inserted(data).faithful(),
{
    let d2 = d.inserted(data);
    let mid = DIndexView { lines: d.lines_with(data), ..d };
    let id = text_version_id(data);
    lemma_add_lines(d.lines, split_on(data, '\n'));
    lemma_key_rebuilds(d, data);
    assert forall|i: int| 0 <= i < d2.versions.len() implies {
        &&& d2.key_fits(#[trigger] d2.versions[i].1.key)
        &&& text_version_id(d2.data_of(d2.versions[i].1.key)) == d2.versions[i].0
    } by {
        if i < d.versions.len() {
            assert(d.key_fits(d.versions[i].1.key));
            lemma_data_of_more_lines(d, d2, d.versions[i].1.key);
            assert(d2.versions[i].1.key == d.versions[i].1.key);
            assert(d2.versions[i].0 == d.versions[i].0);
        } else {
            assert(d2.versions[i].1.key == d.key_for(data));
            assert(d2.versions[i].0 == id);
        }
    }
}

/// What a read gives back of a write: after `data` is stored, the head is its
/// identifier and can be read; the text read back has the same identifier,
/// and it is `data` itself where that identifier was not stored before.
#[verifier::spinoff_prover]
pub proof fn lemma_read_after_insert(d: DIndexView, data: Seq<char>)
    requires
        d.wf(),
        d.has_version(d.head),
        d.faithful(),
        d.lines_with(data).len() <= usize::MAX,
    ensures
        ({
            let d2 = d.inserted(data);
            let id = text_version_id(data);
            &&& d2.head == id
            &&& d2.has_version(id)
            &&& d2.readable(id)
            &&& text_version_id(d2.data_of(d2.version(id).key)) == id
            &&& !d.has_version(id) ==> d2.data_of(d2.version(id).key) == data
        }),
{
    let d2 = d.inserted(data);
    let id = text_version_id(data);
    lemma_inserted_faithful(d, data);
    lemma_add_lines(d.lines, split_on(data, '\n'));
    lemma_key_rebuilds(d, data);
    let versions = if d.has_version(id) { d.versions } else { d.versions.push((id, VersionView { prev: d.head, next: id, key: d.key_for(data) })) };
    assert(d2.ids() =~= versions.map_values(|e: (Seq<u8>, VersionView)| e.0)) by {
        let k = d.version_pos(d.head);
        assert(d.ids()[k] == d.head);
    }
    let pos = if d.has_version(id) { d.version_pos(id) } else { d.versions.len() as int };
    assert(d2.ids()[pos] == id);
    assert(d2.has_version(id));
    assert(d2.ids().no_duplicates()) by {
        if !d.has_version(id) {
            assert forall|a: int, b: int| 0 <= a < d2.ids().len() && 0 <= b < d2.ids().len() && a != b implies d2.ids()[a] != d2.ids()[b] by {
                if a == d.versions.len() as int {
                    assert(d.ids()[b] == d2.ids()[b]);
                } else if b == d.versions.len() as int {
                    assert(d.ids()[a] == d2.ids()[a]);
                } else {
                    assert(d.ids()[a] == d2.ids()[a]);
                    assert(d.ids()[b] == d2.ids()[b]);
                }
            }
        }
    }
    assert(d2.version_pos(id) == pos);
    if !d.has_version(id) {
        assert(d2.versions[pos].1.key == d.key_for(data));
    }
}


fn find_entry(entries: &Vec<(DIndexVersionId, DIndexVersion)>, id: &DIndexVersionId) -> (pos: Option<usize>)
    ensures
        match pos {
            Some(k) => k < entries@.len() && entries@[k as int].0@ == id@
                && (entries@.map_values(|e: (DIndexVersionId, DIndexVersion)| e.0@).no_duplicates()
                    ==> entries@.map_values(|e: (DIndexVersionId, DIndexVersion)| e.0@).index_of(id@) == k)
                && entries@.map_values(|e: (DIndexVersionId, DIndexVersion)| e.0@).contains(id@),
            None => !entries@.map_values(|e: (DIndexVersionId, DIndexVersion)| e.0@).contains(id@),
        },
{
    let ghost ids = entries@.map_values(|e: (DIndexVersionId, DIndexVersion)| e.0@);
    let mut k: usize = 0;
    while k < entries.len()
        invariant
            ids == entries@.map_values(|e: (DIndexVersionId, DIndexVersion)| e.0@),
            k <= entries.len(),
            forall|j: int| 0 <= j < k ==> ids[j] != id@,
        decreases entries.len() - k,
    {
        if entries[k].0.same_as(id) {
            proof {
                assert(ids[k as int] == id@);
                assert(ids.contains(id@));
            }
            return Some(k);
        }
        k = k + 1;
    }
    proof {
        if ids.contains(id@) {
            let j = choose|j: int| 0 <= j < ids.len() && ids[j] == id@;
            assert(ids[j] != id@);
        }
    }
    None
}


fn read_ranges(iter: &mut ByteIter, n: u64) -> (key: Option<DIndexKey>)
    requires
        old(iter).wf(),
    ensures
        final(iter).wf(),
        match parse_ranges(old(iter)@, n as nat) {
            Some((k, r)) => key matches Some(x) && x@ == k && final(iter)@ == r,
            None => key is None,
        },
{
    let ghost s0 = iter@;
    let mut key_vec: Vec<DIndexRange> = Vec::new();
    let mut j: u64 = 0;
    while j < n
        invariant
            iter.wf(),
            j <= n,
            s0 == old(iter)@,
            parse_ranges(s0, j as nat) == Some((key_vec@.map_values(|r: DIndexRange| r@), iter@)),
        decreases n - j,
    {
        let ghost before = key_vec@;
        let start = match iter.take_u64() {
            Some(v) => v,
            None => {
                proof {
                    lemma_parse_ranges_none(s0, j as nat + 1, n as nat);
                }
                return None;
            },
        };
        let end = match iter.take_u64() {
            Some(v) => v,
            None => {
                proof {
                    lemma_parse_ranges_none(s0, j as nat + 1, n as nat);
                }
                return None;
            },
        };
        key_vec.push(DIndexRange::from_bounds(start, end));
        proof {
            assert(key_vec@.map_values(|r: DIndexRange| r@) =~= before.map_values(|r: DIndexRange| r@).push((start, end)));
        }
        j = j + 1;
    }
    Some(DIndexKey::from_ranges(key_vec))
}

fn read_version(iter: &mut ByteIter) -> (entry: Option<(DIndexVersionId, DIndexVersion)>)
    requires
        old(iter).wf(),
    ensures
        final(iter).wf(),
        match parse_version(old(iter)@) {
            Some(((id, v), r)) => entry matches Some(e) && e.0@ == id && e.1@ == v && final(iter)@ == r,
            None => entry is None,
        },
{
    let version_id = match iter.take_array32() {
        Some(a) => DIndexVersionId::from_bytes(a),
        None => return None,
    };
    let prev_id = match iter.take_array32() {
        Some(a) => DIndexVersionId::from_bytes(a),
        None => return None,
    };
    let next_id = match iter.take_array32() {
        Some(a) => DIndexVersionId::from_bytes(a),
        None => return None,
    };
    let data_key_len = match iter.take_u64() {
        Some(n) => n,
        None => return None,
    };
    let data_key = match read_ranges(iter, data_key_len) {
        Some(k) => k,
        None => return None,
    };
    Some((version_id, DIndexVersion::new(prev_id, next_id, data_key)))
}

fn read_versions(iter: &mut ByteIter, n: u64) -> (versions: Option<Vec<(DIndexVersionId, DIndexVersion)>>)
    requires
        old(iter).wf(),
    ensures
        final(iter).wf(),
        match parse_versions(old(iter)@, n as nat) {
            Some((vs, r)) => versions matches Some(v)
                && v@.map_values(|e: (DIndexVersionId, DIndexVersion)| (e.0@, e.1@)) == vs
                && v@.map_values(|e: (DIndexVersionId, DIndexVersion)| e.0@).no_duplicates()
                && final(iter)@ == r,
            None => versions is None,
        },
{
    let ghost s0 = iter@;
    let mut version_map: Vec<(DIndexVersionId, DIndexVersion)> = Vec::new();
    let mut i: u64 = 0;
    while i < n
        invariant
            iter.wf(),
            i <= n,
            s0 == old(iter)@,
            parse_versions(s0, i as nat) == Some((version_map@.map_values(|e: (DIndexVersionId, DIndexVersion)| (e.0@, e.1@)), iter@)),
            version_map@.map_values(|e: (DIndexVersionId, DIndexVersion)| e.0@).no_duplicates(),
        decreases n - i,
    {
        let ghost vs = version_map@.map_values(|e: (DIndexVersionId, DIndexVersion)| (e.0@, e.1@));
        let (version_id, version) = match read_version(iter) {
            Some(e) => e,
            None => {
                proof {
                    lemma_parse_versions_none(s0, i as nat + 1, n as nat);
                }
                return None;
            },
        };
        let ghost before = version_map@;
        let ghost ids = before.map_values(|e: (DIndexVersionId, DIndexVersion)| e.0@);
        proof {
            assert(vs.map_values(|e: (Seq<u8>, VersionView)| e.0) =~= ids);
        }
        match find_entry(&version_map, &version_id) {
            Some(k) => {
                version_map.remove(k);
                version_map.insert(k, (version_id, version));
                proof {
                    assert(ids.index_of(version_id@) == k);
                    assert(version_map@ =~= before.update(k as int, (version_id, version)));
                    assert(version_map@.map_values(|e: (DIndexVersionId, DIndexVersion)| (e.0@, e.1@)) =~= upsert(vs, version_id@, version@));
                    assert(version_map@.map_values(|e: (DIndexVersionId, DIndexVersion)| e.0@) =~= ids);
                }
            },
            None => {
                version_map.push((version_id, version));
                proof {
                    assert(version_map@.map_values(|e: (DIndexVersionId, DIndexVersion)| (e.0@, e.1@)) =~= upsert(vs, version_id@, version@));
                    let ids2 = version_map@.map_values(|e: (DIndexVersionId, DIndexVersion)| e.0@);
                    assert(ids2 =~= ids.push(version_id@));
                    assert forall|a: int, b: int| 0 <= a < ids2.len() && 0 <= b < ids2.len() && a != b implies ids2[a] != ids2[b] by {
                        if a == ids.len() as int {
                            assert(ids[b] == ids2[b]);
                        } else if b == ids.len() as int {
                            assert(ids[a] == ids2[a]);
                        }
                    }
                }
            },
        }
        i = i + 1;
    }
    Some(version_map)
}

#[verifier::loop_isolation(false)]
fn read_lines(iter: &mut ByteIter, n: u64) -> (lines: Vec<String>)
    requires
        old(iter).wf(),
    ensures
        final(iter).wf(),
        parse_lines(old(iter)@, n as nat) == (string_views(lines@), final(iter)@),
        string_views(lines@).no_duplicates(),
{
    let ghost s0 = iter@;
    let mut lines: Vec<String> = Vec::new();
    let mut k: u64 = 0;
    while k < n
        invariant
            iter.wf(),
            k <= n,
            parse_lines(s0, k as nat) == (string_views(lines@), iter@),
            string_views(lines@).no_duplicates(),
        decreases n - k,
    {
        let ghost before = lines@;
        let line_bytes = iter.take_line();
        let line = string_from_utf8_lossy(line_bytes.as_slice());
        proof {
            assert(lossy_text(line_bytes@) == line@);
        }
        match find_line(&lines, &line) {
            Some(idx) => {
                proof {
                    assert(string_views(lines@)[idx as int] == line@);
                    assert(string_views(lines@).contains(line@));
                }
            },
            None => {
                lines.push(line);
                proof {
                    assert(string_views(lines@) =~= string_views(before).push(line@));
                    let ls = string_views(before);
                    let ls2 = string_views(lines@);
                    assert forall|a: int, b: int| 0 <= a < ls2.len() && 0 <= b < ls2.len() && a != b implies ls2[a] != ls2[b] by {
                        if a == ls.len() as int {
                            assert(ls[b] == ls2[b]);
                        } else if b == ls.len() as int {
                            assert(ls[a] == ls2[a]);
                        }
                    }
                }
            },
        }
        proof {
            assert(parse_lines(s0, k as nat + 1) == (string_views(lines@), iter@));
        }
        k = k + 1;
        if iter.is_empty() {
            let empty = String::new();
            match find_line(&lines, &empty) {
                Some(idx) => {
                    proof {
                        assert(string_views(lines@)[idx as int] == Seq::<char>::empty());
                        lemma_parse_lines_settled(s0, k as nat, n as nat);
                    }
                    break;
                },
                None => {},
            }
        }
    }
    lines
}


/// A version entry whose identifiers are 32 bytes and whose key length fits in 64 bits.
pub open spec fn entry_storable(e: (Seq<u8>, VersionView)) -> bool {
    &&& e.0.len() == 32
    &&& e.1.prev.len() == 32
    &&& e.1.next.len() == 32
    &&& e.1.key.len() <= u64::MAX
}

#[verifier::spinoff_prover]
#[verifier::rlimit(30)]
proof fn lemma_parse_ranges_roundtrip(key: Seq<(u64, u64)>, rest: Seq<u8>)
    ensures
        parse_ranges(ser_ranges(key) + rest, key.len()) == Some((key, rest)),
    decreases key.len(),
{
    if key.len() > 0 {
        let k2 = key.drop_last();
        let (a, b) = key.last();
        let tail = u64_be(a) + u64_be(b) + rest;
        lemma_parse_ranges_roundtrip(k2, tail);
        assert(ser_ranges(key) + rest =~= ser_ranges(k2) + tail);
        lemma_take_u64_roundtrip(a, u64_be(b) + rest);
        assert(tail =~= u64_be(a) + (u64_be(b) + rest));
        lemma_take_u64_roundtrip(b, rest);
        assert(k2.push((a, b)) =~= key);
    }
}

#[verifier::spinoff_prover]
proof fn lemma_parse_version_roundtrip(id: Seq<u8>, v: VersionView, rest: Seq<u8>)
    requires
        entry_storable((id, v)),
    ensures
        parse_version(ser_version(id, v) + rest) == Some(((id, v), rest)),
{
    let t4 = ser_ranges(v.key) + rest;
    let t3 = u64_be(v.key.len() as u64) + t4;
    let t2 = v.next + t3;
    let t1 = v.prev + t2;
    assert(ser_version(id, v) + rest =~= id + t1);
    lemma_take_fixed_roundtrip(id, 32, t1);
    lemma_take_fixed_roundtrip(v.prev, 32, t2);
    lemma_take_fixed_roundtrip(v.next, 32, t3);
    lemma_take_u64_roundtrip(v.key.len() as u64, t4);
    lemma_parse_ranges_roundtrip(v.key, rest);
}

#[verifier::spinoff_prover]
proof fn lemma_parse_versions_roundtrip(vs: Seq<(Seq<u8>, VersionView)>, rest: Seq<u8>)
    requires
        vs.map_values(|e: (Seq<u8>, VersionView)| e.0).no_duplicates(),
        forall|i: int| 0 <= i < vs.len() ==> entry_storable(#[trigger] vs[i]),
    ensures
        parse_versions(ser_versions(vs) + rest, vs.len()) == Some((vs, rest)),
    decreases vs.len(),
{
    if vs.len() > 0 {
        let v2 = vs.drop_last();
        let e = vs.last();
        let ids = vs.map_values(|e: (Seq<u8>, VersionView)| e.0);
        let ids2 = v2.map_values(|e: (Seq<u8>, VersionView)| e.0);
        assert(ids2 =~= ids.drop_last());
        assert forall|i: int| 0 <= i < v2.len() implies entry_storable(#[trigger] v2[i]) by {
            assert(v2[i] == vs[i]);
        }
        let tail = ser_version(e.0, e.1) + rest;
        lemma_parse_versions_roundtrip(v2, tail);
        assert(ser_versions(vs) + rest =~= ser_versions(v2) + tail);
        assert(entry_storable(vs[vs.len() - 1]));
        lemma_parse_version_roundtrip(e.0, e.1, rest);
        assert(!ids2.contains(e.0)) by {
            if ids2.contains(e.0) {
                let k = choose|k: int| 0 <= k < ids2.len() && ids2[k] == e.0;
                assert(ids[k] == ids[ids.len() - 1]);
            }
        }
        assert(v2.push(e) =~= vs);
    }
}

#[verifier::spinoff_prover]
proof fn lemma_parse_lines_roundtrip(ls: Seq<Seq<char>>, rest: Seq<u8>)
    requires
        ls.no_duplicates(),
        forall|i: int| 0 <= i < ls.len() ==> !(#[trigger] ls[i]).contains('\n'),
    ensures
        parse_lines(ser_lines(ls) + rest, ls.len()) == (ls, rest),
    decreases ls.len(),
{
    if ls.len() > 0 {
        let l2 = ls.drop_last();
        let l = ls.last();
        assert forall|i: int| 0 <= i < l2.len() implies !(#[trigger] l2[i]).contains('\n') by {
            assert(l2[i] == ls[i]);
        }
        let tail = encode_utf8(l) + seq![10u8] + rest;
        lemma_parse_lines_roundtrip(l2, tail);
        assert(ser_lines(ls) + rest =~= ser_lines(l2) + tail);
        assert(!ls[ls.len() - 1].contains('\n'));
        lemma_encode_utf8_avoids(l, '\n');
        lemma_take_until_roundtrip(encode_utf8(l), 10u8, rest);
        lemma_lossy_text_of_encoding(l);
        assert(!l2.contains(l)) by {
            if l2.contains(l) {
                let k = choose|k: int| 0 <= k < l2.len() && l2[k] == l;
                assert(ls[k] == ls[ls.len() - 1]);
            }
        }
        assert(l2.push(l) =~= ls);
    }
}

/// Reading back the stored form of an index gives the index, and leaves
/// whatever followed it.
pub proof fn lemma_parse_serialized(d: DIndexView, rest: Seq<u8>)
    requires
        d.storable(),
    ensures
        parse_dindex(serialized(d) + rest) == Some((d, rest)),
{
    let t5 = ser_lines(d.lines) + rest;
    let t4 = u64_be(d.lines.len() as u64) + t5;
    let t3 = ser_versions(d.versions) + t4;
    let t2 = u64_be(d.versions.len() as u64) + t3;
    let t1 = d.head + t2;
    assert(serialized(d) + rest =~= encode_utf8(d.name) + seq![0u8] + t1);
    lemma_encode_utf8_avoids(d.name, '\0');
    lemma_take_until_roundtrip(encode_utf8(d.name), 0u8, t1);
    lemma_lossy_text_of_encoding(d.name);
    lemma_take_fixed_roundtrip(d.head, 32, t2);
    lemma_take_u64_roundtrip(d.versions.len() as u64, t3);
    lemma_parse_versions_roundtrip(d.versions, t4);
    lemma_take_u64_roundtrip(d.lines.len() as u64, t5);
    lemma_parse_lines_roundtrip(d.lines, rest);
}


#[verifier::spinoff_prover]
proof fn lemma_ranges_truncated(key: Seq<(u64, u64)>, m: int)
    requires
        0 <= m < ser_ranges(key).len(),
    ensures
        parse_ranges(ser_ranges(key).take(m), key.len()) is None,
    decreases key.len(),
{
    let k2 = key.drop_last();
    let (a, b) = key.last();
    let front = ser_ranges(k2);
    let tail = u64_be(a) + u64_be(b);
    assert(ser_ranges(key) =~= front + tail);
    assert(u64_be(a).len() == 8 && u64_be(b).len() == 8);
    let t = ser_ranges(key).take(m);
    if m < front.len() {
        assert(t =~= front.take(m));
        lemma_ranges_truncated(k2, m);
    } else {
        let partial = tail.take(m - front.len());
        assert(t =~= front + partial);
        lemma_parse_ranges_roundtrip(k2, partial);
        if partial.len() >= 8 {
            let r = u64_be(b).take(partial.len() - 8);
            assert(partial =~= u64_be(a) + r);
            lemma_take_u64_roundtrip(a, r);
        }
    }
}

#[verifier::spinoff_prover]
proof fn lemma_version_truncated(id: Seq<u8>, v: VersionView, m: int)
    requires
        entry_storable((id, v)),
        0 <= m < ser_version(id, v).len(),
    ensures
        parse_version(ser_version(id, v).take(m)) is None,
{
    let s = ser_version(id, v);
    let t = s.take(m);
    let rs = ser_ranges(v.key);
    assert(u64_be(v.key.len() as u64).len() == 8);
    if m >= 32 {
        assert(take_fixed(t, 32) == Some((id, t.skip(32)))) by {
            assert(t.take(32) =~= id);
        }
        if m >= 64 {
            assert(t.skip(32).take(32) =~= v.prev);
            if m >= 96 {
                assert(t.skip(32).skip(32).take(32) =~= v.next);
                let r3 = t.skip(32).skip(32).skip(32);
                if m >= 104 {
                    let r4 = rs.take(m - 104);
                    assert(r3 =~= u64_be(v.key.len() as u64) + r4);
                    lemma_take_u64_roundtrip(v.key.len() as u64, r4);
                    lemma_ranges_truncated(v.key, m - 104);
                }
            }
        }
    }
}

#[verifier::spinoff_prover]
proof fn lemma_versions_truncated(vs: Seq<(Seq<u8>, VersionView)>, m: int)
    requires
        vs.map_values(|e: (Seq<u8>, VersionView)| e.0).no_duplicates(),
        forall|i: int| 0 <= i < vs.len() ==> entry_storable(#[trigger] vs[i]),
        0 <= m < ser_versions(vs).len(),
    ensures
        parse_versions(ser_versions(vs).take(m), vs.len()) is None,
    decreases vs.len(),
{
    let v2 = vs.drop_last();
    let e = vs.last();
    let front = ser_versions(v2);
    let tail = ser_version(e.0, e.1);
    assert(ser_versions(vs) =~= front + tail);
    let ids = vs.map_values(|e: (Seq<u8>, VersionView)| e.0);
    let ids2 = v2.map_values(|e: (Seq<u8>, VersionView)| e.0);
    assert(ids2 =~= ids.drop_last());
    assert forall|i: int| 0 <= i < v2.len() implies entry_storable(#[trigger] v2[i]) by {
        assert(v2[i] == vs[i]);
    }
    let t = ser_versions(vs).take(m);
    if m < front.len() {
        assert(t =~= front.take(m));
        lemma_versions_truncated(v2, m);
    } else {
        let partial = tail.take(m - front.len());
        assert(t =~= front + partial);
        lemma_parse_versions_roundtrip(v2, partial);
        assert(entry_storable(vs[vs.len() - 1]));
        lemma_version_truncated(e.0, e.1, m - front.len());
    }
}

/// Stored bytes cut short before the line table are refused. (The line table
/// is read up to the end of the bytes, so a cut inside it is not noticed.)
#[verifier::spinoff_prover]
pub proof fn lemma_truncated_dindex(d: DIndexView, k: int)
    requires
        d.storable(),
        0 <= k < serialized(d).len() - ser_lines(d.lines).len(),
    ensures
        parse_dindex(serialized(d).take(k)) is None,
{
    let s = serialized(d);
    let t = s.take(k);
    let en = encode_utf8(d.name);
    let vsb = ser_versions(d.versions);
    let nv = u64_be(d.versions.len() as u64);
    let nl = u64_be(d.lines.len() as u64);
    assert(nv.len() == 8 && nl.len() == 8);
    lemma_encode_utf8_avoids(d.name, '\0');
    if k <= en.len() {
        assert(t =~= en.take(k));
        assert(!t.contains(0u8)) by {
            if t.contains(0u8) {
                let j = choose|j: int| 0 <= j < t.len() && t[j] == 0u8;
                assert(en[j] == 0u8);
            }
        }
        lemma_take_until_none(t, 0u8);
    } else {
        let r1 = s.skip(en.len() as int + 1).take(k - en.len() - 1);
        assert(t =~= en + seq![0u8] + r1);
        lemma_take_until_roundtrip(en, 0u8, r1);
        let base = en.len() as int + 1;
        if k >= base + 32 {
            assert(r1.take(32) =~= d.head);
            let r2 = r1.skip(32);
            if k >= base + 40 {
                let r3 = r2.skip(8);
                assert(r2 =~= nv + r3);
                lemma_take_u64_roundtrip(d.versions.len() as u64, r3);
                let vstart = base + 40;
                if k < vstart + vsb.len() {
                    assert(r3 =~= vsb.take(k - vstart));
                    lemma_versions_truncated(d.versions, k - vstart);
                } else {
                    let r4 = nl.take(k - vstart - vsb.len());
                    assert(r3 =~= vsb + r4);
                    lemma_parse_versions_roundtrip(d.versions, r4);
                }
            }
        }
    }
}

/// Adding the lines of a text keeps the line table free of newlines.
proof fn lemma_lines_with_clean(d: DIndexView, data: Seq<char>)
    requires
        d.lines.no_duplicates(),
        forall|i: int| 0 <= i < d.lines.len() ==> !(#[trigger] d.lines[i]).contains('\n'),
    ensures
        forall|i: int| 0 <= i < d.lines_with(data).len() ==> !(#[trigger] d.lines_with(data)[i]).contains('\n'),
{
    let ps = split_on(data, '\n');
    let ls = d.lines_with(data);
    lemma_add_lines(d.lines, ps);
    lemma_split_pieces_free_of_sep(data, '\n');
    assert forall|i: int| 0 <= i < ls.len() implies !(#[trigger] ls[i]).contains('\n') by {
        assert(ls.contains(ls[i]));
        if d.lines.contains(ls[i]) {
            let k = choose|k: int| 0 <= k < d.lines.len() && d.lines[k] == ls[i];
            assert(!d.lines[k].contains('\n'));
        } else {
            let k = choose|k: int| 0 <= k < ps.len() && ps[k] == ls[i];
            assert(!ps[k].contains('\n'));
        }
    }
}


proof fn lemma_inserted_storable(d: DIndexView, data: Seq<char>)
    requires
        d.storable(),
        d.has_version(d.head),
        d.inserted(data).wf(),
        d.inserted(data).versions.len() <= u64::MAX,
        d.inserted(data).lines.len() <= u64::MAX,
        d.key_for(data).len() <= u64::MAX,
        text_version_id(data).len() == 32,
    ensures
        d.inserted(data).storable(),
{
    let v = d.inserted(data);
    lemma_lines_with_clean(d, data);
    assert forall|i: int| 0 <= i < v.versions.len() implies entry_storable(#[trigger] v.versions[i]) by {
        if i < d.versions.len() {
            assert(entry_storable(d.versions[i]));
        } else {
            assert(v.versions[i].1.key == d.key_for(data));
        }
    }
}


proof fn lemma_parse_ranges_suffix(s: Seq<u8>, n: nat)
    ensures
        parse_ranges(s, n) matches Some((_, r)) ==> r.len() <= s.len(),
    decreases n,
{
    if n > 0 {
        lemma_parse_ranges_suffix(s, (n - 1) as nat);
    }
}

proof fn lemma_parse_versions_suffix(s: Seq<u8>, n: nat)
    ensures
        parse_versions(s, n) matches Some((_, r)) ==> r.len() <= s.len(),
    decreases n,
{
    if n > 0 {
        lemma_parse_versions_suffix(s, (n - 1) as nat);
        if let Some((_, r1)) = parse_versions(s, (n - 1) as nat) {
            if let Some((_, r1b)) = take_fixed(r1, 32) {
                if let Some((_, r2)) = take_fixed(r1b, 32) {
                    if let Some((_, r3)) = take_fixed(r2, 32) {
                        if let Some((k, r4)) = take_u64(r3) {
                            lemma_parse_ranges_suffix(r4, k as nat);
                        }
                    }
                }
            }
        }
    }
}

proof fn lemma_parse_lines_suffix(s: Seq<u8>, n: nat)
    ensures
        parse_lines(s, n).1.len() <= s.len(),
    decreases n,
{
    if n > 0 {
        lemma_parse_lines_suffix(s, (n - 1) as nat);
        let r1 = parse_lines(s, (n - 1) as nat).1;
        lemma_take_until_len(r1, 10u8);
    }
}

/// Reading an index consumes at least one byte.
pub proof fn lemma_parse_dindex_shrinks(s: Seq<u8>)
    ensures
        parse_dindex(s) matches Some((_, r)) ==> r.len() < s.len(),
{
    lemma_take_until_len(s, 0u8);
    if let Some((_, r1)) = take_until(s, 0u8) {
        if let Some((_, r2)) = take_fixed(r1, 32) {
            if let Some((m, r3)) = take_u64(r2) {
                lemma_parse_versions_suffix(r3, m as nat);
                if let Some((_, r4)) = parse_versions(r3, m as nat) {
                    if let Some((nl, r5)) = take_u64(r4) {
                        lemma_parse_lines_suffix(r5, nl as nat);
                    }
                }
            }
        }
    }
}

/// Storing a version changes no stored version's text: every version that
/// was stored and could be rebuilt keeps its key and rebuilds the same text
/// (so storing a text whose identifier is already stored keeps that entry).
/// The old head then points forward to the new head, and a version that is
/// new points back to the old head.
pub proof fn lemma_insert_keeps_versions(d: DIndexView, data: Seq<char>, x: Seq<u8>)
    requires
        d.wf(),
        d.has_version(d.head),
        d.has_version(x),
        d.readable(x),
    ensures
        ({
            let d2 = d.inserted(data);
            let id = text_version_id(data);
            &&& d2.has_version(x)
            &&& d2.version(x).key == d.version(x).key
            &&& d2.readable(x)
            &&& d2.data_of(d2.version(x).key) == d.data_of(d.version(x).key)
            &&& d2.version(d.head).next == id
            &&& !d.has_version(id) ==> d2.version(id).prev == d.head
        }),
{
    let d2 = d.inserted(data);
    let id = text_version_id(data);
    let k = d.version_pos(d.head);
    let p = d.version_pos(x);
    assert(0 <= k < d.versions.len() && d.ids()[k] == d.head);
    assert(0 <= p < d.versions.len() && d.ids()[p] == x);
    let versions = if d.has_version(id) {
        d.versions
    } else {
        d.versions.push((id, VersionView { prev: d.head, next: id, key: d.key_for(data) }))
    };
    let ids1 = versions.map_values(|e: (Seq<u8>, VersionView)| e.0);
    assert(d2.ids() =~= ids1);
    if d.has_version(id) {
        assert(ids1 =~= d.ids());
    } else {
        assert(ids1 =~= d.ids().push(id));
        assert forall|a: int, b: int| 0 <= a < ids1.len() && 0 <= b < ids1.len() && a != b implies ids1[a] != ids1[b] by {
            if a == d.versions.len() as int {
                assert(d.ids()[b] == ids1[b]);
                assert(d.ids().contains(ids1[b]));
            } else if b == d.versions.len() as int {
                assert(d.ids()[a] == ids1[a]);
                assert(d.ids().contains(ids1[a]));
            }
        }
        let q = d.versions.len() as int;
        assert(d2.ids()[q] == id);
        assert(d2.ids().contains(id));
        let j = d2.ids().index_of(id);
        assert(j == q);
        assert(d2.versions[q] == versions[q]);
    }
    let ids2 = d2.ids();
    assert(ids2[p] == x);
    assert(ids2.contains(x));
    assert(d2.version_pos(x) == p);
    assert(ids2[k] == d.head);
    assert(ids2.contains(d.head));
    assert(d2.version_pos(d.head) == k);
    assert(d2.versions[p].1.key == d.versions[p].1.key);
    lemma_add_lines(d.lines, split_on(data, '\n'));
    lemma_data_of_more_lines(d, d2, d.version(x).key);
}

/// Storing a text whose identifier is already stored keeps that entry: the
/// name and the set of identifiers stay, the head moves to the identifier,
/// and the one change to the versions is that the old head's successor
/// becomes the identifier. Where the stored version rebuilds `data` itself
/// (equal digests of different texts are not ruled out here), no line holds
/// a newline and the table holds the empty line, the line table stays as
/// it was too and the version reads back as `data`.
#[verifier::spinoff_prover]
pub proof fn lemma_insert_existing(d: DIndexView, data: Seq<char>)
    requires
        d.wf(),
        d.has_version(d.head),
        d.has_version(text_version_id(data)),
        d.readable(text_version_id(data)),
    ensures
        ({
            let d2 = d.inserted(data);
            let id = text_version_id(data);
            let k = d.version_pos(d.head);
            &&& d2.name == d.name
            &&& d2.head == id
            &&& d2.ids() == d.ids()
            &&& d2.versions.len() == d.versions.len()
            &&& forall|i: int| 0 <= i < d.versions.len() && i != k ==> #[trigger] d2.versions[i] == d.versions[i]
            &&& d2.versions[k] == (d.head, VersionView { next: id, ..d.versions[k].1 })
            &&& d2.version(id).key == d.version(id).key
            &&& d2.version(id).prev == d.version(id).prev
            &&& (d.data_of(d.version(id).key) == data
                && (forall|i: int| 0 <= i < d.lines.len() ==> !(#[trigger] d.lines[i]).contains('\n'))
                && d.lines.contains(Seq::<char>::empty())) ==> {
                &&& d2.lines == d.lines
                &&& d2.data_of(d2.version(id).key) == data
            }
        }),
{
    let d2 = d.inserted(data);
    let id = text_version_id(data);
    let k = d.version_pos(d.head);
    assert(0 <= k < d.versions.len() && d.ids()[k] == d.head);
    assert(d2.ids() =~= d.ids());
    lemma_insert_keeps_versions(d, data, id);
    let key = d.version(id).key;
    if d.data_of(key) == data && (forall|i: int| 0 <= i < d.lines.len() ==> !(#[trigger] d.lines[i]).contains('\n'))
        && d.lines.contains(Seq::<char>::empty()) {
        let e = expand(key);
        let xs = e.map_values(|j: int| d.lines[j]);
        lemma_expand_below(key, d.lines.len() as int);
        let ps = split_on(data, '\n');
        if xs.len() == 0 {
            assert(data =~= Seq::<char>::empty());
            assert(ps =~= seq![Seq::<char>::empty()]);
        } else {
            assert forall|i: int| 0 <= i < xs.len() implies !(#[trigger] xs[i]).contains('\n') by {
                assert(0 <= e[i] < d.lines.len());
            }
            lemma_split_join(xs, '\n');
            assert(ps == xs);
            assert forall|i: int| 0 <= i < ps.len() implies d.lines.contains(#[trigger] ps[i]) by {
                assert(0 <= e[i] < d.lines.len());
                assert(d.lines[e[i]] == ps[i]);
            }
        }
        lemma_add_lines_present(d.lines, ps);
    }
}

/// A new index links its one version to itself.
pub proof fn lemma_created_linked(name: Seq<char>, data: Seq<char>)
    ensures
        created(name, data).linked(),
{
    let c = created(name, data);
    let id = text_version_id(data);
    assert(c.ids() =~= seq![id]);
    assert(c.ids()[0] == id);
    assert(c.has_version(id));
}

/// Storing a version keeps every predecessor and successor link pointing at
/// a stored version.
pub proof fn lemma_inserted_linked(d: DIndexView, data: Seq<char>)
    requires
        d.has_version(d.head),
        d.linked(),
    ensures
        d.inserted(data).linked(),
{
    let d2 = d.inserted(data);
    let id = text_version_id(data);
    let k = d.version_pos(d.head);
    assert(0 <= k < d.versions.len() && d.ids()[k] == d.head);
    let versions = if d.has_version(id) {
        d.versions
    } else {
        d.versions.push((id, VersionView { prev: d.head, next: id, key: d.key_for(data) }))
    };
    let ids1 = versions.map_values(|e: (Seq<u8>, VersionView)| e.0);
    assert(d2.ids() =~= ids1);
    assert forall|x: Seq<u8>| d.has_version(x) implies d2.has_version(x) by {
        let j = choose|j: int| 0 <= j < d.ids().len() && d.ids()[j] == x;
        assert(d2.ids()[j] == x);
    }
    assert(d2.has_version(id)) by {
        if d.has_version(id) {
        } else {
            assert(d2.ids()[d.versions.len() as int] == id);
        }
    }
    assert forall|i: int| 0 <= i < d2.versions.len() implies {
        &&& d2.has_version(#[trigger] d2.versions[i].1.prev)
        &&& d2.has_version(d2.versions[i].1.next)
    } by {
        if i < d.versions.len() {
            assert(d.has_version(d.versions[i].1.prev));
            assert(d.has_version(d.versions[i].1.next));
            if i == k {
                assert(d2.versions[i].1.prev == d.versions[i].1.prev);
                assert(d2.versions[i].1.next == id);
            } else {
                assert(d2.versions[i] == d.versions[i]);
            }
        } else {
            assert(d2.versions[i].1.prev == d.head);
            assert(d2.versions[i].1.next == id);
        }
    }
}

/// Once the lines of a text are in a duplicate-free table, the text's key
/// rebuilds exactly that text.
pub proof fn lemma_key_rebuilds(d: DIndexView, data: Seq<char>)
    requires
        d.lines.no_duplicates(),
        d.lines_with(data).len() <= usize::MAX,
    ensures
        ({
            let d2 = DIndexView { lines: d.lines_with(data), ..d };
            &&& d2.key_fits(d.key_for(data))
            &&& d2.data_of(d.key_for(data)) == data
        }),
{
    let pieces = split_on(data, '\n');
    let lines = d.lines_with(data);
    lemma_add_lines(d.lines, pieces);
    let nums = line_numbers(lines, pieces);
    assert forall|i: int| 0 <= i < nums.len() implies 0 <= #[trigger] nums[i] < lines.len() && lines[nums[i]] == pieces[i] by {
        assert(lines.contains(pieces[i]));
    }
    assert forall|i: int| 0 <= i < nums.len() implies 0 <= #[trigger] nums[i] < u64::MAX by {
        assert(0 <= nums[i] < lines.len());
    }
    lemma_key_of_expands(nums);
    let key = key_of(nums);
    let d2 = DIndexView { lines: lines, ..d };
    lemma_split_nonempty(data, '\n');
    lemma_key_ranges_within(nums, lines.len() as int);
    assert(nums.map_values(|k: int| lines[k]) =~= pieces);
    lemma_join_split(data, '\n');
}

} // verus!
