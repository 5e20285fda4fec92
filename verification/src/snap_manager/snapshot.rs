use vstd::prelude::*;
use vstd::string::StringExecFns;
use vstd::utf8::encode_utf8;

use super::errors::SnapshotReadError;
use crate::dindex::DIndexVersionId;
use crate::hex_text::{hex_decodable, hex_decode, hex_decoding, hex_encode, hex_encoding};
use crate::hex_text::{hex_char_at, lemma_hex_roundtrip};
use crate::text::{
    concat, join_on, lemma_join_split, lemma_split_concat_sep, lemma_split_inclusive_concat, lemma_split_nonempty, lemma_split_pair,
    lemma_split_single, push_char, split_inclusive_on, split_on, split_str,
    split_str_inclusive, string_views,
};

verus! {

/// What a snapshot holds: the version of each file path, and the snapshot it follows.
pub struct SnapshotView {
    pub entries: Seq<(Seq<char>, Seq<u8>)>,
    pub parent: Option<Seq<u8>>,
}

/// The kinds of failure in reading snapshot text.
pub enum SnapshotReadFailure {
    ObjectIdParse,
    EarlyTermination,
    InvalidId,
}

/// The normal components among the pieces of a path between separators:
/// empty pieces and `.` are left out.
pub open spec fn normal_components(ps: Seq<Seq<char>>) -> Seq<Seq<char>>
    decreases ps.len(),
{
    if ps.len() == 0 {
        Seq::empty()
    } else {
        let prev = normal_components(ps.drop_last());
        if ps.last() == Seq::<char>::empty() || ps.last() == seq!['.'] {
            prev
        } else {
            prev.push(ps.last())
        }
    }
}

/// What a path is compared by, as `Path` compares paths by their components:
/// the root (written `/`) or a leading `.`, then the normal components. So
/// `a//b`, `a/./b` and `a/b/` are all the path `a/b`.
pub open spec fn path_key(p: Seq<char>) -> Seq<Seq<char>> {
    let pieces = split_on(p, '/');
    let start = if p.len() > 0 && p[0] == '/' {
        seq![seq!['/']]
    } else if pieces[0] == seq!['.'] {
        seq![seq!['.']]
    } else {
        Seq::empty()
    };
    start + normal_components(pieces)
}

/// The keys of the entries' paths.
pub open spec fn entry_keys(es: Seq<(Seq<char>, Seq<u8>)>) -> Seq<Seq<Seq<char>>> {
    es.map_values(|e: (Seq<char>, Seq<u8>)| path_key(e.0))
}

/// The entries with the one for `path` (compared by key) given `id`, keeping
/// the path as first written, or a new entry added at the end.
pub open spec fn upsert_path(es: Seq<(Seq<char>, Seq<u8>)>, path: Seq<char>, id: Seq<u8>) -> Seq<(Seq<char>, Seq<u8>)> {
    if entry_keys(es).contains(path_key(path)) {
        let k = entry_keys(es).index_of(path_key(path));
        es.update(k, (es[k].0, id))
    } else {
        es.push((path, id))
    }
}

/// The text of an entry list: per entry the path, a space, the hex identifier and a newline.
pub open spec fn ser_snapshot_entries(es: Seq<(Seq<char>, Seq<u8>)>) -> Seq<char>
    decreases es.len(),
{
    if es.len() == 0 {
        Seq::empty()
    } else {
        ser_snapshot_entries(es.drop_last()) + es.last().0 + seq![' '] + hex_encoding(es.last().1) + seq!['\n']
    }
}

/// The text of a snapshot: a first line with the hex parent identifier, or a
/// zero character where there is none, then one line per entry.
pub open spec fn ser_snapshot(s: SnapshotView) -> Seq<char> {
    (match s.parent {
        Some(p) => hex_encoding(p),
        None => seq!['\0'],
    }) + seq!['\n'] + ser_snapshot_entries(s.entries)
}

/// A line without its line ending (a newline, with a carriage return before it).
pub open spec fn strip_line_ending(p: Seq<char>) -> Seq<char> {
    if p.len() > 0 && p.last() == '\n' {
        let q = p.drop_last();
        if q.len() > 0 && q.last() == '\r' {
            q.drop_last()
        } else {
            q
        }
    } else {
        p
    }
}

/// The lines of a text, as `str::lines` gives them.
pub open spec fn text_lines(t: Seq<char>) -> Seq<Seq<char>> {
    split_inclusive_on(t, '\n').map_values(|p: Seq<char>| strip_line_ending(p))
}

/// The identifier written as hex text in `text`.
pub open spec fn decode_id(text: Seq<char>) -> Result<Seq<u8>, SnapshotReadFailure> {
    let b = encode_utf8(text);
    if !hex_decodable(b) {
        Err(SnapshotReadFailure::ObjectIdParse)
    } else if hex_decoding(b).len() != 32 {
        Err(SnapshotReadFailure::InvalidId)
    } else {
        Ok(hex_decoding(b))
    }
}

/// Reads entry lines: the first word is the path, the second the hex
/// identifier; a later line for a path replaces an earlier one.
pub open spec fn parse_snapshot_entries(ls: Seq<Seq<char>>) -> Result<Seq<(Seq<char>, Seq<u8>)>, SnapshotReadFailure>
    decreases ls.len(),
{
    if ls.len() == 0 {
        Ok(Seq::empty())
    } else {
        match parse_snapshot_entries(ls.drop_last()) {
            Err(e) => Err(e),
            Ok(es) => {
                let words = split_on(ls.last(), ' ');
                if words.len() < 2 {
                    Err(SnapshotReadFailure::EarlyTermination)
                } else {
                    match decode_id(words[1]) {
                        Err(e) => Err(e),
                        Ok(id) => Ok(upsert_path(es, words[0], id)),
                    }
                }
            },
        }
    }
}

/// Reads snapshot text.
pub open spec fn parse_snapshot(t: Seq<char>) -> Result<SnapshotView, SnapshotReadFailure> {
    let ls = text_lines(t);
    if ls.len() == 0 {
        Err(SnapshotReadFailure::EarlyTermination)
    } else {
        let parent = if ls[0] == seq!['\0'] {
            Ok(None)
        } else {
            match decode_id(ls[0]) {
                Err(e) => Err(e),
                Ok(id) => Ok(Some(id)),
            }
        };
        match parent {
            Err(e) => Err(e),
            Ok(p) => match parse_snapshot_entries(ls.drop_first()) {
                Err(e) => Err(e),
                Ok(entries) => Ok(SnapshotView { entries, parent: p }),
            },
        }
    }
}

/// The kind of a read error.
pub open spec fn read_failure(e: SnapshotReadError) -> SnapshotReadFailure {
    match e {
        SnapshotReadError::ObjectIdParse(_) => SnapshotReadFailure::ObjectIdParse,
        SnapshotReadError::EarlyTermination => SnapshotReadFailure::EarlyTermination,
        SnapshotReadError::InvalidId(_) => SnapshotReadFailure::InvalidId,
    }
}

/// The version of each file in a directory tree, and the snapshot before it.
#[derive(Debug, Clone)]
pub struct Snapshot {
    entries: Vec<(String, DIndexVersionId)>,
    parent_id: Option<DIndexVersionId>,
}

impl View for Snapshot {
    type V = SnapshotView;

    closed spec fn view(&self) -> SnapshotView {
        SnapshotView {
            entries: self.entries@.map_values(|e: (String, DIndexVersionId)| (e.0@, e.1@)),
            parent: match self.parent_id {
                Some(p) => Some(p@),
                None => None,
            },
        }
    }
}

/// Whether `s` is the one character `c`.
fn is_char(s: &String, c: char) -> (b: bool)
    ensures
        b == (s@ == seq![c]),
{
    let t = s.as_str();
    if t.unicode_len() == 1 && t.get_char(0) == c {
        assert(s@ =~= seq![c]);
        true
    } else {
        false
    }
}

/// The key of a path.
fn path_key_of(path: &str) -> (key: Vec<String>)
    ensures
        string_views(key@) == path_key(path@),
{
    let pieces = split_str(path, '/');
    let ghost ps = split_on(path@, '/');
    proof {
        lemma_split_nonempty(path@, '/');
        assert(string_views(pieces@) == ps);
    }
    let mut key: Vec<String> = Vec::new();
    let n = path.unicode_len();
    if n > 0 && path.get_char(0) == '/' {
        let mut root = String::new();
        push_char(&mut root, '/');
        key.push(root);
    } else if is_char(&pieces[0], '.') {
        let mut dot = String::new();
        push_char(&mut dot, '.');
        key.push(dot);
    }
    assert(pieces@[0]@ == ps[0]);
    let ghost start = string_views(key@);
    proof {
        assert(start =~= path_key(path@).take(start.len() as int)) by {
            if n > 0 && path@[0] == '/' {
                assert(start =~= seq![seq!['/']]);
            } else if ps[0] == seq!['.'] {
                assert(start =~= seq![seq!['.']]);
            } else {
                assert(start =~= Seq::<Seq<char>>::empty());
            }
        }
        assert(path_key(path@) =~= start + normal_components(ps));
        assert(ps.take(0) =~= Seq::<Seq<char>>::empty());
        assert(string_views(key@) =~= start + normal_components(ps.take(0)));
    }
    let mut i: usize = 0;
    while i < pieces.len()
        invariant
            i <= pieces.len(),
            string_views(pieces@) == ps,
            string_views(key@) == start + normal_components(ps.take(i as int)),
        decreases pieces.len() - i,
    {
        let piece = &pieces[i];
        assert(piece@ == ps[i as int]);
        assert(ps.take(i as int + 1).drop_last() =~= ps.take(i as int));
        assert(ps.take(i as int + 1).last() == ps[i as int]);
        if piece.as_str().unicode_len() == 0 {
            assert(piece@ =~= Seq::<char>::empty());
        } else if is_char(piece, '.') {
        } else {
            let ghost before = string_views(key@);
            key.push(piece.clone());
            proof {
                assert(string_views(key@) =~= before.push(key@[key@.len() - 1]@));
                assert(key@[key@.len() - 1]@ == piece@);
            }
        }
        i = i + 1;
    }
    proof {
        assert(ps.take(i as int) =~= ps);
    }
    key
}

/// Whether two keys are the same.
fn same_key(a: &Vec<String>, b: &Vec<String>) -> (same: bool)
    ensures
        same == (string_views(a@) == string_views(b@)),
{
    if a.len() != b.len() {
        assert(string_views(a@).len() != string_views(b@).len());
        return false;
    }
    let mut i: usize = 0;
    while i < a.len()
        invariant
            a.len() == b.len(),
            i <= a.len(),
            forall|j: int| 0 <= j < i ==> a@[j]@ == b@[j]@,
        decreases a.len() - i,
    {
        if a[i] != b[i] {
            assert(string_views(a@)[i as int] != string_views(b@)[i as int]);
            return false;
        }
        i = i + 1;
    }
    assert(string_views(a@) =~= string_views(b@));
    true
}

fn find_path(entries: &Vec<(String, DIndexVersionId)>, path: &String) -> (pos: Option<usize>)
    ensures
        ({
            let keys = entry_keys(entries@.map_values(|e: (String, DIndexVersionId)| (e.0@, e.1@)));
            match pos {
                Some(k) => k < entries@.len() && keys[k as int] == path_key(path@) && keys.contains(path_key(path@))
                    && (keys.no_duplicates() ==> keys.index_of(path_key(path@)) == k),
                None => !keys.contains(path_key(path@)),
            }
        }),
{
    let ghost keys = entry_keys(entries@.map_values(|e: (String, DIndexVersionId)| (e.0@, e.1@)));
    let target = path_key_of(path.as_str());
    let mut k: usize = 0;
    while k < entries.len()
        invariant
            keys == entry_keys(entries@.map_values(|e: (String, DIndexVersionId)| (e.0@, e.1@))),
            string_views(target@) == path_key(path@),
            k <= entries.len(),
            forall|j: int| 0 <= j < k ==> keys[j] != path_key(path@),
        decreases entries.len() - k,
    {
        let key = path_key_of(entries[k].0.as_str());
        if same_key(&key, &target) {
            proof {
                assert(keys[k as int] == path_key(path@));
                assert(keys.contains(path_key(path@)));
            }
            return Some(k);
        }
        k = k + 1;
    }
    proof {
        if keys.contains(path_key(path@)) {
            let j = choose|j: int| 0 <= j < keys.len() && keys[j] == path_key(path@);
            assert(keys[j] != path_key(path@));
        }
    }
    None
}

fn upsert_entry(entries: &mut Vec<(String, DIndexVersionId)>, path: String, id: DIndexVersionId)
    requires
        entry_keys(old(entries)@.map_values(|e: (String, DIndexVersionId)| (e.0@, e.1@))).no_duplicates(),
    ensures
        final(entries)@.map_values(|e: (String, DIndexVersionId)| (e.0@, e.1@))
            == upsert_path(old(entries)@.map_values(|e: (String, DIndexVersionId)| (e.0@, e.1@)), path@, id@),
        entry_keys(final(entries)@.map_values(|e: (String, DIndexVersionId)| (e.0@, e.1@))).no_duplicates(),
{
    let ghost es = old(entries)@.map_values(|e: (String, DIndexVersionId)| (e.0@, e.1@));
    let ghost keys = entry_keys(es);
    match find_path(entries, &path) {
        Some(k) => {
            let (first_path, _) = entries.remove(k);
            proof {
                assert(first_path@ == es[k as int].0);
            }
            entries.insert(k, (first_path, id));
            proof {
                let es2 = entries@.map_values(|e: (String, DIndexVersionId)| (e.0@, e.1@));
                assert(es2 =~= es.update(k as int, (es[k as int].0, id@)));
                assert(entry_keys(es2) =~= keys);
            }
        },
        None => {
            entries.push((path, id));
            proof {
                let es2 = entries@.map_values(|e: (String, DIndexVersionId)| (e.0@, e.1@));
                assert(es2 =~= es.push((path@, id@)));
                let k2 = entry_keys(es2);
                assert(k2 =~= keys.push(path_key(path@)));
                assert forall|a: int, b: int| 0 <= a < k2.len() && 0 <= b < k2.len() && a != b implies k2[a] != k2[b] by {
                    if a == keys.len() as int {
                        assert(keys[b] == k2[b]);
                        assert(keys.contains(k2[b]));
                    } else if b == keys.len() as int {
                        assert(keys[a] == k2[a]);
                        assert(keys.contains(k2[a]));
                    }
                }
            }
        },
    }
}

/// The first `n` characters of `s`.
fn prefix_chars(s: &str, n: usize) -> (p: String)
    requires
        n <= s@.len(),
    ensures
        p@ == s@.take(n as int),
{
    let mut p = String::new();
    let mut i: usize = 0;
    while i < n
        invariant
            n <= s@.len(),
            i <= n,
            p@ == s@.take(i as int),
        decreases n - i,
    {
        let c = s.get_char(i);
        push_char(&mut p, c);
        assert(s@.take(i as int + 1) =~= s@.take(i as int).push(c));
        i = i + 1;
    }
    p
}

/// The line without its line ending.
fn strip_line(line: &String) -> (stripped: String)
    ensures
        stripped@ == strip_line_ending(line@),
{
    let s = line.as_str();
    let n = s.unicode_len();
    if n > 0 && s.get_char(n - 1) == '\n' {
        if n > 1 && s.get_char(n - 2) == '\r' {
            let p = prefix_chars(s, n - 2);
            assert(s@.take(n - 2) =~= s@.drop_last().drop_last());
            p
        } else {
            let p = prefix_chars(s, n - 1);
            assert(s@.take(n - 1) =~= s@.drop_last());
            p
        }
    } else {
        let p = prefix_chars(s, n);
        assert(s@.take(n as int) =~= s@);
        p
    }
}

/// The identifier written as hex text in `text`.
fn read_id(text: &String) -> (res: Result<DIndexVersionId, SnapshotReadError>)
    ensures
        match decode_id(text@) {
            Ok(id) => res matches Ok(x) && x@ == id,
            Err(f) => res matches Err(e) && read_failure(e) == f,
        },
{
    match hex_decode(text.as_str().as_bytes()) {
        Err(e) => Err(SnapshotReadError::ObjectIdParse(e)),
        Ok(bytes) => match DIndexVersionId::try_from_vec(bytes) {
            Ok(id) => Ok(id),
            Err(e) => Err(SnapshotReadError::InvalidId(e)),
        },
    }
}

impl Snapshot {
    pub closed spec fn wf(&self) -> bool {
        entry_keys(self@.entries).no_duplicates()
    }

    /// An empty snapshot following `parent_id`.
    pub fn new(parent_id: Option<DIndexVersionId>) -> (snap: Snapshot)
        ensures
            snap@.entries == Seq::<(Seq<char>, Seq<u8>)>::empty(),
            snap@.parent == (match parent_id {
                Some(p) => Some(p@),
                None => None,
            }),
            snap.wf(),
    {
        let snap = Snapshot { entries: Vec::new(), parent_id };
        assert(snap@.entries =~= Seq::<(Seq<char>, Seq<u8>)>::empty());
        snap
    }

    /// Records that the file at `path` is at version `id`.
    pub fn update_entry(&mut self, path: &str, id: DIndexVersionId)
        requires
            old(self).wf(),
        ensures
            final(self)@ == (SnapshotView { entries: upsert_path(old(self)@.entries, path@, id@), ..old(self)@ }),
            final(self).wf(),
    {
        upsert_entry(&mut self.entries, path.to_owned(), id);
    }

    /// Whether the snapshot records a version for `path`.
    pub fn contains_path(&self, path: &str) -> (found: bool)
        ensures
            found == entry_keys(self@.entries).contains(path_key(path@)),
    {
        find_path(&self.entries, &path.to_owned()).is_some()
    }

    /// The version recorded for `path`, if any.
    pub fn get_version_id(&self, path: &str) -> (id: Option<&DIndexVersionId>)
        requires
            self.wf(),
        ensures
            match id {
                Some(x) => entry_keys(self@.entries).contains(path_key(path@))
                    && x@ == self@.entries[entry_keys(self@.entries).index_of(path_key(path@))].1,
                None => !entry_keys(self@.entries).contains(path_key(path@)),
            },
    {
        match find_path(&self.entries, &path.to_owned()) {
            Some(k) => Some(&self.entries[k].1),
            None => None,
        }
    }

    /// The snapshot this one follows, if any.
    pub fn parent_id(&self) -> (p: Option<DIndexVersionId>)
        ensures
            (match p {
                Some(x) => Some(x@),
                None => None,
            }) == self@.parent,
    {
        self.parent_id
    }

    pub fn into_entries(self) -> (entries: Vec<(String, DIndexVersionId)>)
        ensures
            entries@.map_values(|e: (String, DIndexVersionId)| (e.0@, e.1@)) == self@.entries,
    {
        self.entries
    }

    pub fn entries(&self) -> (entries: &Vec<(String, DIndexVersionId)>)
        ensures
            entries@.map_values(|e: (String, DIndexVersionId)| (e.0@, e.1@)) == self@.entries,
    {
        &self.entries
    }

    /// The text of the snapshot.
    pub fn to_text(&self) -> (text: String)
        ensures
            text@ == ser_snapshot(self@),
    {
        let ghost v = self@;
        let mut text = String::new();
        match self.parent_id {
            Some(parent_id) => {
                let bytes = parent_id.into_bytes();
                let hex = hex_encode(bytes.as_slice());
                text.append(hex.as_str());
            },
            None => {
                push_char(&mut text, '\0');
            },
        }
        push_char(&mut text, '\n');
        let ghost prefix = text@;
        proof {
            assert(v.entries.take(0) =~= Seq::<(Seq<char>, Seq<u8>)>::empty());
            assert(text@ =~= prefix + ser_snapshot_entries(v.entries.take(0)));
        }
        let mut i: usize = 0;
        while i < self.entries.len()
            invariant
                v == self@,
                i <= self.entries.len(),
                text@ == prefix + ser_snapshot_entries(v.entries.take(i as int)),
            decreases self.entries.len() - i,
        {
            text.append(self.entries[i].0.as_str());
            push_char(&mut text, ' ');
            let bytes = self.entries[i].1.into_bytes();
            let hex = hex_encode(bytes.as_slice());
            text.append(hex.as_str());
            push_char(&mut text, '\n');
            proof {
                assert(v.entries.take(i as int + 1).drop_last() =~= v.entries.take(i as int));
                assert(v.entries[i as int] == (self.entries@[i as int].0@, self.entries@[i as int].1@));
                assert(text@ =~= prefix + ser_snapshot_entries(v.entries.take(i as int + 1)));
            }
            i = i + 1;
        }
        proof {
            assert(v.entries.take(i as int) =~= v.entries);
        }
        text
    }

    /// Reads a snapshot from its text.
    pub fn try_from_text(data: String) -> (res: Result<Snapshot, SnapshotReadError>)
        ensures
            match parse_snapshot(data@) {
                Ok(s) => res matches Ok(snap) && snap@ == s && snap.wf(),
                Err(f) => res matches Err(e) && read_failure(e) == f,
            },
    {
        let pieces = split_str_inclusive(data.as_str(), '\n');
        let ghost ls = text_lines(data@);
        proof {
            assert(ls.len() == pieces@.len());
        }
        if pieces.len() == 0 {
            return Err(SnapshotReadError::EarlyTermination);
        }
        let first = strip_line(&pieces[0]);
        proof {
            assert(first@ == ls[0]);
        }
        let nul = String::from_str("\0");
        proof {
            reveal_strlit("\0");
            assert(nul@ =~= seq!['\0']);
        }
        let parent_id = if first == nul {
            proof {
                assert(ls[0] == seq!['\0']);
            }
            None
        } else {
            proof {
                assert(ls[0] != seq!['\0']);
            }
            match read_id(&first) {
                Ok(id) => Some(id),
                Err(e) => {
                    proof {
                        assert(decode_id(ls[0]) is Err);
                        assert(parse_snapshot(data@) == Err::<SnapshotView, SnapshotReadFailure>(read_failure(e)));
                    }
                    return Err(e);
                },
            }
        };
        let mut entries: Vec<(String, DIndexVersionId)> = Vec::new();
        let ghost rest = ls.drop_first();
        let mut i: usize = 1;
        proof {
            assert(rest.take(0) =~= Seq::<Seq<char>>::empty());
            assert(entries@.map_values(|e: (String, DIndexVersionId)| (e.0@, e.1@)) =~= Seq::<(Seq<char>, Seq<u8>)>::empty());
        }
        while i < pieces.len()
            invariant
                1 <= i <= pieces.len(),
                ls == text_lines(data@),
                ls.len() == pieces@.len(),
                rest == ls.drop_first(),
                ls.len() > 0,
                match parent_id {
                    Some(x) => ls[0] != seq!['\0'] && decode_id(ls[0]) == Ok::<Seq<u8>, SnapshotReadFailure>(x@),
                    None => ls[0] == seq!['\0'],
                },
                string_views(pieces@) == split_inclusive_on(data@, '\n'),
                parse_snapshot_entries(rest.take(i as int - 1)) == Ok::<Seq<(Seq<char>, Seq<u8>)>, SnapshotReadFailure>(
                    entries@.map_values(|e: (String, DIndexVersionId)| (e.0@, e.1@))),
                entry_keys(entries@.map_values(|e: (String, DIndexVersionId)| (e.0@, e.1@))).no_duplicates(),
            decreases pieces.len() - i,
        {
            let line = strip_line(&pieces[i]);
            proof {
                assert(line@ == ls[i as int]);
                assert(rest.take(i as int).drop_last() =~= rest.take(i as int - 1));
                assert(rest.take(i as int).last() == ls[i as int]);
            }
            let words = split_str(line.as_str(), ' ');
            if words.len() < 2 {
                proof {
                    assert(parse_snapshot_entries(rest.take(i as int)) == Err::<Seq<(Seq<char>, Seq<u8>)>, SnapshotReadFailure>(SnapshotReadFailure::EarlyTermination));
                    lemma_parse_entries_err(rest, i as nat, (pieces.len() - 1) as nat);
                    assert(parse_snapshot(data@) == Err::<SnapshotView, SnapshotReadFailure>(SnapshotReadFailure::EarlyTermination));
                }
                return Err(SnapshotReadError::EarlyTermination);
            }
            let id = match read_id(&words[1]) {
                Ok(id) => id,
                Err(e) => {
                    proof {
                        assert(parse_snapshot_entries(rest.take(i as int)) == Err::<Seq<(Seq<char>, Seq<u8>)>, SnapshotReadFailure>(read_failure(e)));
                        lemma_parse_entries_err(rest, i as nat, (pieces.len() - 1) as nat);
                        assert(parse_snapshot(data@) == Err::<SnapshotView, SnapshotReadFailure>(read_failure(e)));
                    }
                    return Err(e);
                },
            };
            let path = words[0].clone();
            upsert_entry(&mut entries, path, id);
            i = i + 1;
        }
        proof {
            assert(rest.take(pieces.len() - 1) =~= rest);
        }
        let snap = Snapshot { entries, parent_id };
        proof {
            assert(parse_snapshot(data@) == Ok::<SnapshotView, SnapshotReadFailure>(snap@));
        }
        Ok(snap)
    }
}


/// The line of an entry.
pub open spec fn entry_line(e: (Seq<char>, Seq<u8>)) -> Seq<char> {
    e.0 + seq![' '] + hex_encoding(e.1)
}

/// A snapshot whose text reads back as the snapshot: no path twice (as
/// paths compare), no path with a space or a newline, identifiers of 32 bytes.
pub open spec fn snapshot_storable(s: SnapshotView) -> bool {
    &&& entry_keys(s.entries).no_duplicates()
    &&& forall|i: int| 0 <= i < s.entries.len() ==> {
        &&& !(#[trigger] s.entries[i]).0.contains(' ')
        &&& !s.entries[i].0.contains('\n')
        &&& s.entries[i].1.len() == 32
    }
    &&& s.parent matches Some(p) ==> p.len() == 32
}

proof fn lemma_hex_plain(bytes: Seq<u8>)
    requires
        bytes.len() > 0,
    ensures
        !hex_encoding(bytes).contains(' '),
        !hex_encoding(bytes).contains('\n'),
        !hex_encoding(bytes).contains('\0'),
        hex_encoding(bytes).len() > 0,
        hex_encoding(bytes).last() != '\r',
{
    lemma_hex_roundtrip(bytes);
    crate::hex_text::lemma_hex_encoding_index(bytes);
    let e = hex_encoding(bytes);
    assert forall|k: int| 0 <= k < e.len() implies e[k] != ' ' && e[k] != '\n' && e[k] != '\0' && e[k] != '\r' by {
        let i = k / 2;
        assert(k == 2 * i || k == 2 * i + 1);
        assert(e[2 * i] == crate::hex_text::hex_digit(bytes[i] as int / 16));
        assert(e[2 * i + 1] == crate::hex_text::hex_digit(bytes[i] as int % 16));
    }
    assert(e.last() == e[e.len() - 1]);
}

proof fn lemma_ser_entries_concat(es: Seq<(Seq<char>, Seq<u8>)>)
    ensures
        ser_snapshot_entries(es) == concat(es.map_values(|e: (Seq<char>, Seq<u8>)| entry_line(e) + seq!['\n'])),
    decreases es.len(),
{
    if es.len() > 0 {
        lemma_ser_entries_concat(es.drop_last());
        let m = es.map_values(|e: (Seq<char>, Seq<u8>)| entry_line(e) + seq!['\n']);
        assert(m.drop_last() =~= es.drop_last().map_values(|e: (Seq<char>, Seq<u8>)| entry_line(e) + seq!['\n']));
        assert(ser_snapshot_entries(es) =~= concat(m));
    } else {
        assert(es.map_values(|e: (Seq<char>, Seq<u8>)| entry_line(e) + seq!['\n']) =~= Seq::<Seq<char>>::empty());
    }
}

proof fn lemma_parse_entries_roundtrip(es: Seq<(Seq<char>, Seq<u8>)>)
    requires
        entry_keys(es).no_duplicates(),
        forall|i: int| 0 <= i < es.len() ==> {
            &&& !(#[trigger] es[i]).0.contains(' ')
            &&& !es[i].0.contains('\n')
            &&& es[i].1.len() == 32
        },
    ensures
        parse_snapshot_entries(es.map_values(|e: (Seq<char>, Seq<u8>)| entry_line(e))) == Ok::<Seq<(Seq<char>, Seq<u8>)>, SnapshotReadFailure>(es),
    decreases es.len(),
{
    let ls = es.map_values(|e: (Seq<char>, Seq<u8>)| entry_line(e));
    if es.len() > 0 {
        let e2 = es.drop_last();
        assert(entry_keys(e2) =~= entry_keys(es).drop_last());
        assert forall|i: int| 0 <= i < e2.len() implies {
            &&& !(#[trigger] e2[i]).0.contains(' ')
            &&& !e2[i].0.contains('\n')
            &&& e2[i].1.len() == 32
        } by {
            assert(e2[i] == es[i]);
        }
        lemma_parse_entries_roundtrip(e2);
        assert(ls.drop_last() =~= e2.map_values(|e: (Seq<char>, Seq<u8>)| entry_line(e)));
        let (path, id) = es.last();
        assert(es[es.len() - 1] == es.last());
        lemma_hex_plain(id);
        lemma_split_pair(path, hex_encoding(id), ' ');
        lemma_hex_roundtrip(id);
        assert(ls.last() == entry_line((path, id)));
        assert(split_on(ls.last(), ' ') == seq![path, hex_encoding(id)]);
        assert(decode_id(hex_encoding(id)) == Ok::<Seq<u8>, SnapshotReadFailure>(id));
        assert(!entry_keys(e2).contains(path_key(path))) by {
            if entry_keys(e2).contains(path_key(path)) {
                let k = choose|k: int| 0 <= k < entry_keys(e2).len() && entry_keys(e2)[k] == path_key(path);
                assert(entry_keys(es)[k] == entry_keys(es)[es.len() - 1]);
            }
        }
        assert(e2.push((path, id)) =~= es);
        assert(upsert_path(e2, path, id) == es);
        assert(parse_snapshot_entries(ls.drop_last()) == Ok::<Seq<(Seq<char>, Seq<u8>)>, SnapshotReadFailure>(e2));
    } else {
        assert(es =~= Seq::<(Seq<char>, Seq<u8>)>::empty());
        assert(ls.len() == 0);
    }
}

/// Reading back the text of a snapshot gives the snapshot.
pub proof fn lemma_parse_snapshot_text(s: SnapshotView)
    requires
        snapshot_storable(s),
    ensures
        parse_snapshot(ser_snapshot(s)) == Ok::<SnapshotView, SnapshotReadFailure>(s),
{
    let first = match s.parent {
        Some(p) => hex_encoding(p),
        None => seq!['\0'],
    };
    if let Some(p) = s.parent {
        lemma_hex_plain(p);
        lemma_hex_roundtrip(p);
    } else {
        assert(!seq!['\0'].contains('\n'));
    }
    let es = s.entries;
    let entry_pieces = es.map_values(|e: (Seq<char>, Seq<u8>)| entry_line(e) + seq!['\n']);
    let pieces = seq![first + seq!['\n']] + entry_pieces;
    lemma_ser_entries_concat(es);
    assert(concat(pieces) =~= ser_snapshot(s)) by {
        lemma_concat_prepend(first + seq!['\n'], entry_pieces);
    }
    assert forall|i: int| 0 <= i < es.len() implies !(#[trigger] entry_line(es[i])).contains('\n') && entry_line(es[i]).last() != '\r' by {
        let (path, id) = es[i];
        lemma_hex_plain(id);
        let l = entry_line(es[i]);
        if l.contains('\n') {
            let k = choose|k: int| 0 <= k < l.len() && l[k] == '\n';
            if k < path.len() {
                assert(path[k] == '\n');
            } else if k > path.len() {
                assert(hex_encoding(id)[k - path.len() - 1] == '\n');
            }
        }
        assert(l.last() == hex_encoding(id).last());
    }
    assert forall|i: int| 0 <= i < pieces.len() implies {
        &&& (#[trigger] pieces[i]).len() > 0
        &&& pieces[i].last() == '\n'
        &&& !pieces[i].drop_last().contains('\n')
    } by {
        if i == 0 {
            assert(pieces[0].drop_last() =~= first);
        } else {
            assert(pieces[i] == entry_line(es[i - 1]) + seq!['\n']);
            assert(pieces[i].drop_last() =~= entry_line(es[i - 1]));
        }
    }
    lemma_split_inclusive_concat(pieces);
    let ls = text_lines(ser_snapshot(s));
    assert(ls.len() == pieces.len());
    assert(ls[0] == strip_line_ending(first + seq!['\n']));
    assert((first + seq!['\n']).drop_last() =~= first);
    assert(ls[0] == first) by {
        if s.parent is None {
            assert(first.last() == '\0');
        }
    }
    assert(ls.drop_first() =~= es.map_values(|e: (Seq<char>, Seq<u8>)| entry_line(e))) by {
        assert forall|i: int| 0 <= i < es.len() implies ls.drop_first()[i] == entry_line(es[i]) by {
            assert(pieces[i + 1] == entry_line(es[i]) + seq!['\n']);
            assert((entry_line(es[i]) + seq!['\n']).drop_last() =~= entry_line(es[i]));
        }
    }
    lemma_parse_entries_roundtrip(es);
    if let Some(p) = s.parent {
        crate::hex_text::lemma_hex_encoding_index(p);
        assert(first.len() == 2 * p.len());
        assert(ls[0] != seq!['\0']);
    }
}

proof fn lemma_concat_prepend(a: Seq<char>, ls: Seq<Seq<char>>)
    ensures
        concat(seq![a] + ls) == a + concat(ls),
    decreases ls.len(),
{
    if ls.len() == 0 {
        assert(seq![a] + ls =~= seq![a]);
        assert(seq![a].drop_last() =~= Seq::<Seq<char>>::empty());
        assert(concat(Seq::<Seq<char>>::empty()) =~= Seq::<char>::empty());
        assert(seq![a].last() == a);
        assert(concat(seq![a]) =~= a);
        assert(a + concat(ls) =~= a);
    } else {
        lemma_concat_prepend(a, ls.drop_last());
        assert((seq![a] + ls).drop_last() =~= seq![a] + ls.drop_last());
        assert((seq![a] + ls).last() == ls.last());
        assert(concat(seq![a] + ls) =~= a + concat(ls));
    }
}

proof fn lemma_parse_entries_err(ls: Seq<Seq<char>>, k: nat, n: nat)
    requires
        1 <= k <= n,
        n == ls.len(),
        parse_snapshot_entries(ls.take(k as int)) is Err,
    ensures
        parse_snapshot_entries(ls) == parse_snapshot_entries(ls.take(k as int)),
    decreases n - k,
{
    if k < n {
        assert(ls.take(k as int + 1).drop_last() =~= ls.take(k as int));
        lemma_parse_entries_err(ls, k + 1, n);
    } else {
        assert(ls.take(k as int) =~= ls);
    }
}

/// Setting the entry for `path` keeps the keys distinct, makes `id` the
/// version found under `path`, and leaves the entries under other keys as
/// they were.
pub proof fn lemma_upsert_path(es: Seq<(Seq<char>, Seq<u8>)>, path: Seq<char>, id: Seq<u8>, other: Seq<char>)
    requires
        entry_keys(es).no_duplicates(),
    ensures
        ({
            let r = upsert_path(es, path, id);
            &&& entry_keys(r).no_duplicates()
            &&& entry_keys(r).contains(path_key(path))
            &&& r[entry_keys(r).index_of(path_key(path))].1 == id
            &&& entry_keys(es).contains(path_key(path)) ==> r.len() == es.len()
                && r[entry_keys(r).index_of(path_key(path))].0 == es[entry_keys(es).index_of(path_key(path))].0
            &&& !entry_keys(es).contains(path_key(path)) ==> r.len() == es.len() + 1
                && r[entry_keys(r).index_of(path_key(path))].0 == path
            &&& path_key(other) != path_key(path) ==> {
                &&& entry_keys(r).contains(path_key(other)) == entry_keys(es).contains(path_key(other))
                &&& entry_keys(es).contains(path_key(other)) ==> r[entry_keys(r).index_of(path_key(other))]
                    == es[entry_keys(es).index_of(path_key(other))]
            }
        }),
{
    let keys = entry_keys(es);
    let r = upsert_path(es, path, id);
    let rk = entry_keys(r);
    let pk = path_key(path);
    let ok = path_key(other);
    if keys.contains(pk) {
        let k = keys.index_of(pk);
        assert(rk =~= keys);
        assert(rk.index_of(pk) == k);
        if ok != pk && keys.contains(ok) {
            let j = keys.index_of(ok);
            assert(j != k);
            assert(r[j] == es[j]);
        }
    } else {
        assert(rk =~= keys.push(pk));
        assert forall|a: int, b: int| 0 <= a < rk.len() && 0 <= b < rk.len() && a != b implies rk[a] != rk[b] by {
            if a == keys.len() as int {
                assert(keys[b] == rk[b]);
                assert(keys.contains(rk[b]));
            } else if b == keys.len() as int {
                assert(keys[a] == rk[a]);
                assert(keys.contains(rk[a]));
            }
        }
        assert(rk[keys.len() as int] == pk);
        let j = rk.index_of(pk);
        assert(j == keys.len() as int) by {
            if j < keys.len() {
                assert(keys[j] == pk);
            }
        }
        if ok != pk {
            if keys.contains(ok) {
                let j2 = keys.index_of(ok);
                assert(rk[j2] == ok);
                assert(rk.index_of(ok) == j2);
                assert(r[j2] == es[j2]);
            } else {
                assert(!rk.contains(ok)) by {
                    if rk.contains(ok) {
                        let j2 = choose|j2: int| 0 <= j2 < rk.len() && rk[j2] == ok;
                        if j2 < keys.len() {
                            assert(keys[j2] == ok);
                        }
                    }
                }
            }
        }
    }
}

/// The entries after each `(path, id)` of `ups` was recorded in turn into an
/// empty snapshot.
pub open spec fn recorded(ups: Seq<(Seq<char>, Seq<u8>)>) -> Seq<(Seq<char>, Seq<u8>)>
    decreases ups.len(),
{
    if ups.len() == 0 {
        Seq::empty()
    } else {
        upsert_path(recorded(ups.drop_last()), ups.last().0, ups.last().1)
    }
}

/// Over a sequence of updates, a snapshot contains a path exactly where some
/// update named it (as paths compare), and the version found for it is the
/// one of the last such update.
pub proof fn lemma_recorded_last(ups: Seq<(Seq<char>, Seq<u8>)>, path: Seq<char>)
    ensures
        entry_keys(recorded(ups)).no_duplicates(),
        entry_keys(recorded(ups)).contains(path_key(path)) <==> entry_keys(ups).contains(path_key(path)),
        forall|j: int|
            0 <= j < ups.len() && #[trigger] path_key(ups[j].0) == path_key(path)
                && (forall|l: int| j < l < ups.len() ==> path_key(ups[l].0) != path_key(path))
                ==> recorded(ups)[entry_keys(recorded(ups)).index_of(path_key(path))].1 == ups[j].1,
    decreases ups.len(),
{
    if ups.len() == 0 {
        assert(entry_keys(recorded(ups)) =~= Seq::<Seq<Seq<char>>>::empty());
        assert(entry_keys(ups) =~= Seq::<Seq<Seq<char>>>::empty());
    } else {
        let prev = ups.drop_last();
        let (p, id) = ups.last();
        lemma_recorded_last(prev, path);
        lemma_upsert_path(recorded(prev), p, id, path);
        assert(entry_keys(ups) =~= entry_keys(prev).push(path_key(p)));
        if path_key(p) == path_key(path) {
            assert(entry_keys(ups)[ups.len() - 1] == path_key(path));
            assert forall|j: int|
                0 <= j < ups.len() && #[trigger] path_key(ups[j].0) == path_key(path)
                    && (forall|l: int| j < l < ups.len() ==> path_key(ups[l].0) != path_key(path))
                    implies recorded(ups)[entry_keys(recorded(ups)).index_of(path_key(path))].1 == ups[j].1 by {
                if j < ups.len() - 1 {
                    assert(path_key(ups[ups.len() - 1].0) == path_key(path));
                }
            }
        } else {
            assert(entry_keys(ups).contains(path_key(path)) <==> entry_keys(prev).contains(path_key(path))) by {
                if entry_keys(ups).contains(path_key(path)) {
                    let j = choose|j: int| 0 <= j < entry_keys(ups).len() && entry_keys(ups)[j] == path_key(path);
                    assert(j < prev.len());
                    assert(entry_keys(prev)[j] == path_key(path));
                }
                if entry_keys(prev).contains(path_key(path)) {
                    let j = choose|j: int| 0 <= j < entry_keys(prev).len() && entry_keys(prev)[j] == path_key(path);
                    assert(entry_keys(ups)[j] == path_key(path));
                }
            }
            assert forall|j: int|
                0 <= j < ups.len() && #[trigger] path_key(ups[j].0) == path_key(path)
                    && (forall|l: int| j < l < ups.len() ==> path_key(ups[l].0) != path_key(path))
                    implies recorded(ups)[entry_keys(recorded(ups)).index_of(path_key(path))].1 == ups[j].1 by {
                assert(j < prev.len());
                assert(prev[j] == ups[j]);
                assert forall|l: int| j < l < prev.len() implies path_key(prev[l].0) != path_key(path) by {
                    assert(prev[l] == ups[l]);
                }
                assert(entry_keys(prev)[j] == path_key(path));
            }
        }
    }
}

/// A relative path written plainly: it does not start with `/`, and none of
/// its pieces between separators is empty or `.` (so no `//`, no trailing
/// `/`, no `./`).
pub open spec fn plain_path(p: Seq<char>) -> bool {
    &&& !(p.len() > 0 && p[0] == '/')
    &&& forall|i: int| 0 <= i < split_on(p, '/').len() ==> {
        &&& (#[trigger] split_on(p, '/')[i]) != Seq::<char>::empty()
        &&& split_on(p, '/')[i] != seq!['.']
    }
}

proof fn lemma_normal_components_plain(ps: Seq<Seq<char>>)
    requires
        forall|i: int| 0 <= i < ps.len() ==> (#[trigger] ps[i]) != Seq::<char>::empty() && ps[i] != seq!['.'],
    ensures
        normal_components(ps) == ps,
    decreases ps.len(),
{
    if ps.len() > 0 {
        let front = ps.drop_last();
        assert forall|i: int| 0 <= i < front.len() implies (#[trigger] front[i]) != Seq::<char>::empty() && front[i] != seq!['.'] by {
            assert(front[i] == ps[i]);
        }
        lemma_normal_components_plain(front);
        assert(ps[ps.len() - 1] == ps.last());
        assert(front.push(ps.last()) =~= ps);
    }
}

/// The key of a plainly written relative path keeps every component, in
/// order: joining the key with `/` gives the path back. So two different
/// plain paths, such as `f` and `d/f`, never share a key.
pub proof fn lemma_plain_path_key(p: Seq<char>)
    requires
        plain_path(p),
    ensures
        join_on(path_key(p), '/') == p,
        path_key(p) == split_on(p, '/'),
{
    let ps = split_on(p, '/');
    lemma_split_nonempty(p, '/');
    assert(ps[0] != seq!['.']);
    lemma_normal_components_plain(ps);
    assert(path_key(p) =~= ps);
    lemma_join_split(p, '/');
}

/// Different plain paths have different keys.
pub proof fn lemma_plain_paths_distinct(p: Seq<char>, q: Seq<char>)
    requires
        plain_path(p),
        plain_path(q),
        p != q,
    ensures
        path_key(p) != path_key(q),
{
    lemma_plain_path_key(p);
    lemma_plain_path_key(q);
}

/// Recording two different plain paths in turn keeps both: the snapshot
/// holds one entry more for each path it lacked, and each path gives the
/// version recorded for it.
pub proof fn lemma_two_plain_paths(
    es: Seq<(Seq<char>, Seq<u8>)>,
    p: Seq<char>,
    a: Seq<u8>,
    q: Seq<char>,
    b: Seq<u8>,
)
    requires
        entry_keys(es).no_duplicates(),
        plain_path(p),
        plain_path(q),
        p != q,
    ensures
        ({
            let r = upsert_path(upsert_path(es, p, a), q, b);
            &&& entry_keys(r).contains(path_key(p))
            &&& entry_keys(r).contains(path_key(q))
            &&& r[entry_keys(r).index_of(path_key(p))].1 == a
            &&& r[entry_keys(r).index_of(path_key(q))].1 == b
            &&& es.len() == 0 ==> r.len() == 2
        }),
{
    lemma_plain_paths_distinct(p, q);
    let r1 = upsert_path(es, p, a);
    lemma_upsert_path(es, p, a, q);
    lemma_upsert_path(r1, q, b, p);
    if es.len() == 0 {
        assert(entry_keys(es) =~= Seq::<Seq<Seq<char>>>::empty());
        assert(!entry_keys(es).contains(path_key(p)));
        assert(r1 == es.push((p, a)));
        assert(entry_keys(r1) =~= seq![path_key(p)]);
        assert(!entry_keys(r1).contains(path_key(q))) by {
            if entry_keys(r1).contains(path_key(q)) {
                let j = choose|j: int| 0 <= j < entry_keys(r1).len() && entry_keys(r1)[j] == path_key(q);
                assert(j == 0);
            }
        }
    }
}

proof fn lemma_normal_components_skip(x: Seq<char>)
    requires
        x == Seq::<char>::empty() || x == seq!['.'],
    ensures
        normal_components(seq![x]) == Seq::<Seq<char>>::empty(),
{
    let one = seq![x];
    assert(one.drop_last() =~= Seq::<Seq<char>>::empty());
    assert(one.last() == x);
    assert(normal_components(one.drop_last()) == Seq::<Seq<char>>::empty());
}

proof fn lemma_normal_components_concat(xs: Seq<Seq<char>>, ys: Seq<Seq<char>>)
    ensures
        normal_components(xs + ys) == normal_components(xs) + normal_components(ys),
    decreases ys.len(),
{
    if ys.len() == 0 {
        assert(xs + ys =~= xs);
        assert(normal_components(xs) + normal_components(ys) =~= normal_components(xs));
    } else {
        lemma_normal_components_concat(xs, ys.drop_last());
        assert((xs + ys).drop_last() =~= xs + ys.drop_last());
        assert((xs + ys).last() == ys.last());
        assert(normal_components(xs + ys) =~= normal_components(xs) + normal_components(ys));
    }
}

/// A plain relative path read from the root, or from `.`, keeps its
/// components after a root or `.` mark, so it never shares a key with the
/// plain path itself.
pub proof fn lemma_marked_path_key(q: Seq<char>)
    requires
        plain_path(q),
    ensures
        path_key(seq!['/'] + q) == seq![seq!['/']] + split_on(q, '/'),
        path_key(seq!['.', '/'] + q) == seq![seq!['.']] + split_on(q, '/'),
        path_key(seq!['/'] + q) != path_key(q),
        path_key(seq!['.', '/'] + q) != path_key(q),
{
    let qs = split_on(q, '/');
    lemma_plain_path_key(q);
    lemma_normal_components_plain(qs);
    lemma_split_nonempty(q, '/');
    let e = Seq::<char>::empty();
    lemma_split_concat_sep(e, q, '/');
    assert(e + seq!['/'] + q =~= seq!['/'] + q);
    assert(split_on(e, '/') =~= seq![e]);
    lemma_normal_components_skip(e);
    lemma_normal_components_concat(seq![e], qs);
    assert(path_key(seq!['/'] + q) =~= seq![seq!['/']] + qs);
    let d = seq!['.'];
    lemma_split_concat_sep(d, q, '/');
    assert(d + seq!['/'] + q =~= seq!['.', '/'] + q);
    lemma_split_single(d, '/');
    lemma_normal_components_skip(d);
    lemma_normal_components_concat(seq![d], qs);
    assert((seq![d] + qs)[0] == d);
    assert(path_key(seq!['.', '/'] + q) =~= seq![seq!['.']] + qs);
    assert((seq![seq!['/']] + qs).len() != qs.len());
    assert((seq![seq!['.']] + qs).len() != qs.len());
}

/// As paths compare: repeated separators, a `.` component and a trailing
/// separator change nothing in the key of plain relative paths.
pub proof fn lemma_path_key_ignores(p: Seq<char>, q: Seq<char>)
    requires
        plain_path(p),
        plain_path(q),
    ensures
        path_key(p + seq!['/', '/'] + q) == path_key(p + seq!['/'] + q),
        path_key(p + seq!['/', '.', '/'] + q) == path_key(p + seq!['/'] + q),
        path_key(p + seq!['/']) == path_key(p),
{
    let ps = split_on(p, '/');
    let qs = split_on(q, '/');
    lemma_split_nonempty(p, '/');
    lemma_split_nonempty(q, '/');
    lemma_normal_components_plain(ps);
    lemma_normal_components_plain(qs);
    let e = Seq::<char>::empty();
    let d = seq!['.'];
    lemma_split_single(e, '/');
    lemma_split_single(d, '/');
    lemma_normal_components_skip(e);
    lemma_normal_components_skip(d);
    assert(p.len() > 0) by {
        if p.len() == 0 {
            assert(ps =~= seq![e]);
            assert(ps[0] == e);
        }
    }
    // p / q
    lemma_split_concat_sep(p, q, '/');
    let base = p + seq!['/'] + q;
    lemma_normal_components_concat(ps, qs);
    assert(split_on(base, '/')[0] == ps[0]);
    assert(base[0] == p[0]);
    assert(path_key(base) =~= ps + qs);
    // p // q
    let eq = e + seq!['/'] + q;
    assert(eq =~= seq!['/'] + q);
    lemma_split_concat_sep(e, q, '/');
    lemma_split_concat_sep(p, seq!['/'] + q, '/');
    let t1 = p + seq!['/', '/'] + q;
    assert(t1 =~= p + seq!['/'] + (seq!['/'] + q));
    assert(split_on(t1, '/') =~= ps + (seq![e] + qs));
    lemma_normal_components_concat(seq![e], qs);
    lemma_normal_components_concat(ps, seq![e] + qs);
    assert(split_on(t1, '/')[0] == ps[0]);
    assert(t1[0] == p[0]);
    assert(path_key(t1) =~= ps + qs);
    // p /./ q
    lemma_split_concat_sep(d, q, '/');
    let dq = d + seq!['/'] + q;
    lemma_split_concat_sep(p, dq, '/');
    let t2 = p + seq!['/', '.', '/'] + q;
    assert(t2 =~= p + seq!['/'] + dq);
    assert(split_on(t2, '/') =~= ps + (seq![d] + qs));
    lemma_normal_components_concat(seq![d], qs);
    lemma_normal_components_concat(ps, seq![d] + qs);
    assert(split_on(t2, '/')[0] == ps[0]);
    assert(t2[0] == p[0]);
    assert(path_key(t2) =~= ps + qs);
    // p /
    lemma_split_concat_sep(p, e, '/');
    let t3 = p + seq!['/'];
    assert(p + seq!['/'] + e =~= t3);
    assert(split_on(t3, '/') =~= ps + seq![e]);
    lemma_normal_components_concat(ps, seq![e]);
    assert(split_on(t3, '/')[0] == ps[0]);
    assert(t3[0] == p[0]);
    assert(path_key(t3) =~= ps);
    assert(path_key(p) =~= ps);
}

} // verus!
