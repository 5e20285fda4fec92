//! The first form of the line index: a table of distinct lines, each kept
//! with its newline, and keys of line ranges.

use vstd::prelude::*;
use vstd::utf8::encode_utf8;

use crate::codec::{lemma_encode_utf8_concat, lemma_lossy_text_of_encoding, lossy_text, push_bytes, string_from_utf8_lossy};
use crate::text::{
    add_lines, concat, concat_strings, expand, find_line, lemma_add_lines, lemma_expand_push,
    lemma_split_inclusive_concat, lemma_split_inclusive_pieces, run, split_inclusive_on, split_str_inclusive, string_views,
};

verus! {

/// A half-open range of line numbers.
#[derive(Debug, PartialEq, Eq, Clone, Copy)]
pub struct DIndexRange((usize, usize));

impl View for DIndexRange {
    type V = (u64, u64);

    closed spec fn view(&self) -> (u64, u64) {
        (self.0.0 as u64, self.0.1 as u64)
    }
}

/// The line ranges whose lines, one after another, make up a file.
#[derive(Debug, PartialEq, Eq)]
pub struct DIndexKey(Vec<DIndexRange>);

impl View for DIndexKey {
    type V = Seq<(u64, u64)>;

    closed spec fn view(&self) -> Seq<(u64, u64)> {
        self.0@.map_values(|r: DIndexRange| r@)
    }
}

impl DIndexKey {
    /// The number of ranges.
    pub fn len(&self) -> (n: usize)
        ensures
            n == self@.len(),
    {
        self.0.len()
    }

    pub fn into_ranges(self) -> (ranges: Vec<DIndexRange>)
        ensures
            ranges@.map_values(|r: DIndexRange| r@) == self@,
    {
        self.0
    }
}

/// The ranges closed so far and the open range after the line numbers `nums`
/// were taken in turn: a number that continues the open range extends it,
/// any other one closes it, even when it is empty, and opens a range of its own.
pub open spec fn key_state(nums: Seq<int>) -> (Seq<(u64, u64)>, (u64, u64))
    decreases nums.len(),
{
    if nums.len() == 0 {
        (Seq::empty(), (0u64, 0u64))
    } else {
        let (done, cur) = key_state(nums.drop_last());
        let n = nums.last();
        if n != cur.1 {
            (done.push(cur), (n as u64, (n + 1) as u64))
        } else {
            (done, (cur.0, (n + 1) as u64))
        }
    }
}

/// The key for the line numbers `nums`.
pub open spec fn key_of(nums: Seq<int>) -> Seq<(u64, u64)> {
    let (done, cur) = key_state(nums);
    done.push(cur)
}

proof fn lemma_key_state(nums: Seq<int>, bound: int)
    requires
        0 <= bound <= usize::MAX,
        forall|i: int| 0 <= i < nums.len() ==> 0 <= #[trigger] nums[i] < bound,
    ensures
        ({
            let (done, cur) = key_state(nums);
            &&& cur.0 <= cur.1 <= bound
            &&& forall|i: int| 0 <= i < done.len() ==> (#[trigger] done[i]).0 <= done[i].1 <= bound
            &&& expand(done) + run(cur.0 as int, cur.1 as int) == nums
        }),
    decreases nums.len(),
{
    if nums.len() > 0 {
        let prefix = nums.drop_last();
        lemma_key_state(prefix, bound);
        let (done, cur) = key_state(prefix);
        let n = nums.last();
        assert(nums[nums.len() - 1] == n);
        assert(nums =~= prefix.push(n));
        if n != cur.1 {
            lemma_expand_push(done, cur);
            assert(run(n, n + 1) =~= seq![n]);
            let done2 = done.push(cur);
            assert forall|i: int| 0 <= i < done2.len() implies (#[trigger] done2[i]).0 <= done2[i].1 <= bound by {
                if i < done.len() {
                    assert(done2[i] == done[i]);
                }
            }
        } else {
            assert(run(cur.0 as int, n + 1) =~= run(cur.0 as int, cur.1 as int).push(n));
        }
    } else {
        assert(run(0, 0) =~= Seq::<int>::empty());
        assert(expand(Seq::<(u64, u64)>::empty()) + run(0, 0) =~= nums);
    }
}

/// The key of line numbers below `bound` covers exactly those numbers, within the table.
pub proof fn lemma_key_of(nums: Seq<int>, bound: int)
    requires
        0 <= bound <= usize::MAX,
        forall|i: int| 0 <= i < nums.len() ==> 0 <= #[trigger] nums[i] < bound,
    ensures
        expand(key_of(nums)) == nums,
        forall|i: int| 0 <= i < key_of(nums).len() ==> (#[trigger] key_of(nums)[i]).0 <= key_of(nums)[i].1 <= bound,
{
    lemma_key_state(nums, bound);
    let (done, cur) = key_state(nums);
    lemma_expand_push(done, cur);
    let k = key_of(nums);
    assert forall|i: int| 0 <= i < k.len() implies (#[trigger] k[i]).0 <= k[i].1 <= bound by {
        if i < done.len() {
            assert(k[i] == done[i]);
        }
    }
}

/// A table of distinct lines, each kept with its newline.
#[derive(Clone, Debug, PartialEq, Eq)]
pub struct DIndex {
    lines: Vec<String>,
}

impl View for DIndex {
    type V = Seq<Seq<char>>;

    closed spec fn view(&self) -> Seq<Seq<char>> {
        string_views(self.lines@)
    }
}

/// Every range of `key` lies within the table `lines`.
pub open spec fn key_fits(lines: Seq<Seq<char>>, key: Seq<(u64, u64)>) -> bool {
    forall|i: int| 0 <= i < key.len() ==> #[trigger] key[i].0 <= key[i].1 <= lines.len()
}

/// The text that `key` stands for in the table `lines`: its lines, one after another.
pub open spec fn data_of(lines: Seq<Seq<char>>, key: Seq<(u64, u64)>) -> Seq<char> {
    concat(expand(key).map_values(|k: int| lines[k]))
}

/// The table after the pieces of `file_data` were added.
pub open spec fn updated(lines: Seq<Seq<char>>, file_data: Seq<char>) -> Seq<Seq<char>> {
    add_lines(lines, split_inclusive_on(file_data, '\n'))
}

/// The key of `file_data` once its pieces are in the table.
pub open spec fn key_for(lines: Seq<Seq<char>>, file_data: Seq<char>) -> Seq<(u64, u64)> {
    key_of(line_numbers(updated(lines, file_data), split_inclusive_on(file_data, '\n')))
}

/// What a read gives back of a write: the key of a file, taken in the table
/// that holds the file's pieces, rebuilds the file.
pub proof fn lemma_get_after_update(lines: Seq<Seq<char>>, file_data: Seq<char>)
    requires
        lines.no_duplicates(),
        updated(lines, file_data).len() <= usize::MAX,
    ensures
        key_fits(updated(lines, file_data), key_for(lines, file_data)),
        data_of(updated(lines, file_data), key_for(lines, file_data)) == file_data,
{
    let ps = split_inclusive_on(file_data, '\n');
    let ls = updated(lines, file_data);
    lemma_add_lines(lines, ps);
    let nums = line_numbers(ls, ps);
    assert forall|x: int| 0 <= x < nums.len() implies 0 <= #[trigger] nums[x] < ls.len() && ls[nums[x]] == ps[x] by {
        assert(ls.contains(ps[x]));
    }
    lemma_key_of(nums, ls.len() as int);
    lemma_split_inclusive_pieces(file_data, '\n');
    assert(nums.map_values(|k: int| ls[k]) =~= ps);
}

/// The line numbers of the pieces in the table `lines`.
pub open spec fn line_numbers(lines: Seq<Seq<char>>, pieces: Seq<Seq<char>>) -> Seq<int> {
    pieces.map_values(|p: Seq<char>| lines.index_of(p))
}

/// The lines of a table, each ending with its newline and holding no other,
/// and no two the same: the form in which a table is written and read back.
pub open spec fn lines_storable(ls: Seq<Seq<char>>) -> bool {
    &&& ls.no_duplicates()
    &&& forall|i: int| 0 <= i < ls.len() ==> {
        &&& (#[trigger] ls[i]).len() > 0
        &&& ls[i].last() == '\n'
        &&& !ls[i].drop_last().contains('\n')
    }
}

impl DIndex {
    pub closed spec fn wf(&self) -> bool {
        self@.no_duplicates()
    }

    /// An empty table.
    pub fn new() -> (index: DIndex)
        ensures
            index@ == Seq::<Seq<char>>::empty(),
            index.wf(),
    {
        let index = DIndex { lines: Vec::new() };
        assert(index@ =~= Seq::<Seq<char>>::empty());
        index
    }

    /// The line table.
    pub fn lines(&self) -> (lines: &Vec<String>)
        ensures
            string_views(lines@) == self@,
    {
        &self.lines
    }

    /// The number of distinct lines.
    pub fn line_count(&self) -> (n: usize)
        ensures
            n == self@.len(),
    {
        self.lines.len()
    }

    /// Adds the lines of `file_data` that the table lacks and returns the key
    /// that rebuilds `file_data` from the table.
    pub fn update(&mut self, file_data: &str) -> (key: DIndexKey)
        requires
            old(self).wf(),
        ensures
            final(self)@ == updated(old(self)@, file_data@),
            final(self).wf(),
            key@ == key_for(old(self)@, file_data@),
            final(self).key_fits(key@),
            final(self).data_of(key@) == file_data@,
    {
        let pieces = split_str_inclusive(file_data, '\n');
        let ghost ps = split_inclusive_on(file_data@, '\n');
        let ghost old_lines = self@;
        proof {
            lemma_add_lines(old_lines, ps);
        }
        let mut i: usize = 0;
        while i < pieces.len()
            invariant
                string_views(pieces@) == ps,
                i <= pieces.len(),
                old_lines.no_duplicates(),
                self@ == add_lines(old_lines, ps.take(i as int)),
            decreases pieces.len() - i,
        {
            proof {
                assert(ps.take(i as int + 1).drop_last() =~= ps.take(i as int));
                assert(ps.take(i as int + 1).last() == pieces@[i as int]@);
            }
            match find_line(&self.lines, &pieces[i]) {
                Some(k) => {
                    proof {
                        assert(self@[k as int] == pieces@[i as int]@);
                        assert(self@.contains(pieces@[i as int]@));
                    }
                },
                None => {
                    let line = pieces[i].clone();
                    let ghost before = self.lines@;
                    self.lines.push(line);
                    proof {
                        assert(string_views(self.lines@) =~= string_views(before).push(pieces@[i as int]@));
                    }
                },
            }
            i = i + 1;
        }
        let total = self.lines.len();
        proof {
            assert(ps.take(pieces.len() as int) =~= ps);
            assert(self@.len() == total);
        }
        let ghost lines = self@;
        let ghost nums = line_numbers(lines, ps);
        proof {
            assert forall|x: int| 0 <= x < ps.len() implies lines.contains(#[trigger] ps[x]) by {}
            assert forall|x: int| 0 <= x < nums.len() implies 0 <= #[trigger] nums[x] < total && lines[nums[x]] == ps[x] by {
                assert(lines.contains(ps[x]));
            }
            lemma_key_of(nums, total as int);
            lemma_get_after_update(old_lines, file_data@);
        }
        let mut ranges: Vec<DIndexRange> = Vec::new();
        let mut range_start: usize = 0;
        let mut range_end: usize = 0;
        let mut j: usize = 0;
        while j < pieces.len()
            invariant
                string_views(pieces@) == ps,
                j <= pieces.len(),
                self@ == lines,
                lines.no_duplicates(),
                lines.len() == total,
                forall|x: int| 0 <= x < ps.len() ==> lines.contains(#[trigger] ps[x]),
                nums == line_numbers(lines, ps),
                range_start <= range_end <= total,
                key_state(nums.take(j as int)) == (ranges@.map_values(|r: DIndexRange| r@), (range_start as u64, range_end as u64)),
            decreases pieces.len() - j,
        {
            let found = find_line(&self.lines, &pieces[j]);
            proof {
                assert(lines.contains(ps[j as int]));
                assert(ps[j as int] == pieces@[j as int]@);
            }
            let line_num = found.unwrap();
            proof {
                assert(nums.take(j as int + 1).drop_last() =~= nums.take(j as int));
                assert(nums[j as int] == line_num as int);
            }
            let ghost before = ranges@;
            if line_num != range_end {
                ranges.push(DIndexRange((range_start, range_end)));
                proof {
                    assert(ranges@.map_values(|r: DIndexRange| r@) =~= before.map_values(|r: DIndexRange| r@).push((range_start as u64, range_end as u64)));
                }
                range_start = line_num;
                range_end = line_num + 1;
            } else {
                range_end = line_num + 1;
            }
            j = j + 1;
        }
        let ghost before = ranges@;
        ranges.push(DIndexRange((range_start, range_end)));
        proof {
            assert(nums.take(pieces.len() as int) =~= nums);
            assert(ranges@.map_values(|r: DIndexRange| r@) =~= before.map_values(|r: DIndexRange| r@).push((range_start as u64, range_end as u64)));
        }
        DIndexKey(ranges)
    }

    /// Every range of `key` lies within the table.
    pub open spec fn key_fits(&self, key: Seq<(u64, u64)>) -> bool {
        key_fits(self@, key)
    }

    /// The text that `key` stands for: its lines, one after another.
    pub open spec fn data_of(&self, key: Seq<(u64, u64)>) -> Seq<char> {
        data_of(self@, key)
    }

    /// The text that `key` stands for.
    pub fn get(&mut self, key: DIndexKey) -> (data: String)
        requires
            old(self).key_fits(key@),
        ensures
            *final(self) == *old(self),
            data@ == old(self).data_of(key@),
    {
        let ghost k = key@;
        let ranges = key.into_ranges();
        let ghost lines = self@;
        let total = self.lines.len();
        let mut data: Vec<String> = Vec::new();
        let mut r: usize = 0;
        while r < ranges.len()
            invariant
                ranges@.map_values(|x: DIndexRange| x@) == k,
                self.key_fits(k),
                lines == self@,
                lines.len() == total,
                r <= ranges.len(),
                string_views(data@) == expand(k.take(r as int)).map_values(|i: int| lines[i]),
            decreases ranges.len() - r,
        {
            let start = ranges[r].0.0;
            let end = ranges[r].0.1;
            proof {
                assert(k[r as int] == (start as u64, end as u64));
                assert(k.take(r as int + 1).drop_last() =~= k.take(r as int));
                lemma_expand_push(k.take(r as int), (start as u64, end as u64));
                assert(k.take(r as int).push((start as u64, end as u64)) =~= k.take(r as int + 1));
            }
            let ghost prefix = expand(k.take(r as int)).map_values(|i: int| lines[i]);
            let mut x: usize = start;
            while x < end
                invariant
                    start <= x <= end <= lines.len(),
                    lines == self@,
                    string_views(data@) == prefix + run(start as int, x as int).map_values(|i: int| lines[i]),
                decreases end - x,
            {
                let ghost before = data@;
                data.push(self.lines[x].clone());
                proof {
                    assert(run(start as int, x as int + 1) =~= run(start as int, x as int).push(x as int));
                    assert(string_views(data@) =~= string_views(before).push(lines[x as int]));
                    assert(run(start as int, x as int + 1).map_values(|i: int| lines[i]) =~= run(start as int, x as int).map_values(|i: int| lines[i]).push(lines[x as int]));
                }
                x = x + 1;
            }
            proof {
                let e = expand(k.take(r as int));
                assert((e + run(start as int, end as int)).map_values(|i: int| lines[i]) =~= prefix + run(start as int, end as int).map_values(|i: int| lines[i]));
            }
            r = r + 1;
        }
        proof {
            assert(k.take(ranges.len() as int) =~= k);
        }
        concat_strings(&data)
    }

    /// The table read from bytes: the text they hold, split after each newline,
    /// each distinct piece once.
    pub fn from_bytes(byte_array: Vec<u8>) -> (index: DIndex)
        ensures
            index@ == add_lines(Seq::empty(), split_inclusive_on(lossy_text(byte_array@), '\n')),
            index.wf(),
    {
        let data = string_from_utf8_lossy(byte_array.as_slice());
        proof {
            assert(data@ == lossy_text(byte_array@));
        }
        let mut index = DIndex::new();
        let _ = index.update(data.as_str());
        index
    }

    /// The lines of the table, one after another, in UTF-8.
    pub fn to_bytes(&self) -> (bytes: Vec<u8>)
        ensures
            bytes@ == encode_utf8(concat(self@)),
    {
        let ghost ls = self@;
        let mut bytes: Vec<u8> = Vec::new();
        let mut i: usize = 0;
        assert(ls.take(0) =~= Seq::<Seq<char>>::empty());
        assert(encode_utf8(concat(ls.take(0))) =~= Seq::<u8>::empty());
        while i < self.lines.len()
            invariant
                ls == self@,
                i <= self.lines.len(),
                bytes@ == encode_utf8(concat(ls.take(i as int))),
            decreases self.lines.len() - i,
        {
            push_bytes(&mut bytes, self.lines[i].as_str().as_bytes());
            proof {
                assert(ls.take(i as int + 1).drop_last() =~= ls.take(i as int));
                assert(ls[i as int] == self.lines@[i as int]@);
                lemma_encode_utf8_concat(concat(ls.take(i as int)), ls[i as int]);
            }
            i = i + 1;
        }
        proof {
            assert(ls.take(i as int) =~= ls);
        }
        bytes
    }
}

/// Reading back the bytes of a table gives the table, where every line ends
/// with its newline and holds no other.
pub proof fn lemma_from_to_bytes(ls: Seq<Seq<char>>)
    requires
        lines_storable(ls),
    ensures
        add_lines(Seq::empty(), split_inclusive_on(lossy_text(encode_utf8(concat(ls))), '\n')) == ls,
{
    lemma_lossy_text_of_encoding(concat(ls));
    lemma_split_inclusive_concat(ls);
    lemma_add_lines_distinct(ls);
}

proof fn lemma_add_lines_distinct(ls: Seq<Seq<char>>)
    requires
        ls.no_duplicates(),
    ensures
        add_lines(Seq::empty(), ls) == ls,
    decreases ls.len(),
{
    if ls.len() > 0 {
        let l2 = ls.drop_last();
        assert(l2.no_duplicates()) by {
            assert forall|a: int, b: int| 0 <= a < l2.len() && 0 <= b < l2.len() && a != b implies l2[a] != l2[b] by {
                assert(l2[a] == ls[a] && l2[b] == ls[b]);
            }
        }
        lemma_add_lines_distinct(l2);
        assert(!l2.contains(ls.last())) by {
            if l2.contains(ls.last()) {
                let k = choose|k: int| 0 <= k < l2.len() && l2[k] == ls.last();
                assert(ls[k] == ls[ls.len() - 1]);
            }
        }
        assert(l2.push(ls.last()) =~= ls);
    }
}

} // verus!
