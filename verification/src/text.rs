//! Splitting text into lines and joining lines back into text.

use vstd::prelude::*;
use vstd::string::StringExecFns;

verus! {

broadcast use vstd::string::group_string_axioms;

/// The pieces of `s` between occurrences of `sep`, as `str::split` gives them:
/// always at least one piece, and an empty piece after a trailing separator.
pub open spec fn split_on(s: Seq<char>, sep: char) -> Seq<Seq<char>>
    decreases s.len(),
{
    if s.len() == 0 {
        seq![Seq::<char>::empty()]
    } else {
        let rest = split_on(s.drop_last(), sep);
        if s.last() == sep {
            rest.push(Seq::<char>::empty())
        } else {
            rest.update(rest.len() - 1, rest.last().push(s.last()))
        }
    }
}

/// The pieces of `ls` with `sep` between each two neighbours, as `slice::join` gives them.
pub open spec fn join_on(ls: Seq<Seq<char>>, sep: char) -> Seq<char>
    decreases ls.len(),
{
    if ls.len() == 0 {
        Seq::<char>::empty()
    } else if ls.len() == 1 {
        ls[0]
    } else {
        join_on(ls.drop_last(), sep).push(sep) + ls.last()
    }
}

pub proof fn lemma_split_nonempty(s: Seq<char>, sep: char)
    ensures
        split_on(s, sep).len() >= 1,
    decreases s.len(),
{
    if s.len() > 0 {
        lemma_split_nonempty(s.drop_last(), sep);
    }
}

/// No piece of a split holds the separator.
pub proof fn lemma_split_pieces_free_of_sep(s: Seq<char>, sep: char)
    ensures
        forall|i: int| 0 <= i < split_on(s, sep).len() ==> !(#[trigger] split_on(s, sep)[i]).contains(sep),
    decreases s.len(),
{
    if s.len() > 0 {
        let rest = split_on(s.drop_last(), sep);
        lemma_split_pieces_free_of_sep(s.drop_last(), sep);
        lemma_split_nonempty(s.drop_last(), sep);
        if s.last() != sep {
            assert forall|i: int| 0 <= i < split_on(s, sep).len() implies !(#[trigger] split_on(s, sep)[i]).contains(sep) by {
                if i == rest.len() - 1 {
                    let p = rest.last().push(s.last());
                    assert(!rest[i].contains(sep));
                    if p.contains(sep) {
                        let k = choose|k: int| 0 <= k < p.len() && p[k] == sep;
                        if k < p.len() - 1 {
                            assert(rest.last()[k] == sep);
                        }
                    }
                }
            }
        } else {
            assert forall|i: int| 0 <= i < split_on(s, sep).len() implies !(#[trigger] split_on(s, sep)[i]).contains(sep) by {
                if i < rest.len() {
                    assert(split_on(s, sep)[i] == rest[i]);
                }
            }
        }
    }
}

proof fn lemma_join_extend_last(ls: Seq<Seq<char>>, sep: char, c: char)
    requires
        ls.len() >= 1,
    ensures
        join_on(ls.update(ls.len() - 1, ls.last().push(c)), sep) == join_on(ls, sep).push(c),
    decreases ls.len(),
{
    let ls2 = ls.update(ls.len() - 1, ls.last().push(c));
    if ls.len() == 1 {
        assert(ls2[0] == ls[0].push(c));
    } else {
        assert(ls2.drop_last() =~= ls.drop_last());
        assert(join_on(ls2, sep) =~= join_on(ls, sep).push(c));
    }
}

/// Splitting text around a separator gives the pieces before it, then the
/// pieces after it.
pub proof fn lemma_split_concat_sep(a: Seq<char>, b: Seq<char>, sep: char)
    ensures
        split_on(a + seq![sep] + b, sep) == split_on(a, sep) + split_on(b, sep),
    decreases b.len(),
{
    let t = a + seq![sep] + b;
    if b.len() == 0 {
        assert(t =~= a.push(sep));
        assert(t.drop_last() =~= a);
        assert(split_on(t, sep) =~= split_on(a, sep) + split_on(b, sep));
    } else {
        lemma_split_concat_sep(a, b.drop_last(), sep);
        assert(t.drop_last() =~= a + seq![sep] + b.drop_last());
        assert(t.last() == b.last());
        lemma_split_nonempty(b.drop_last(), sep);
        lemma_split_nonempty(a, sep);
        assert(split_on(t, sep) =~= split_on(a, sep) + split_on(b, sep));
    }
}

/// Splitting the join of pieces that hold no separator gives the pieces back.
pub proof fn lemma_split_join(xs: Seq<Seq<char>>, sep: char)
    requires
        xs.len() >= 1,
        forall|i: int| 0 <= i < xs.len() ==> !(#[trigger] xs[i]).contains(sep),
    ensures
        split_on(join_on(xs, sep), sep) == xs,
    decreases xs.len(),
{
    if xs.len() == 1 {
        lemma_split_single(xs[0], sep);
        assert(seq![xs[0]] =~= xs);
    } else {
        let front = xs.drop_last();
        assert forall|i: int| 0 <= i < front.len() implies !(#[trigger] front[i]).contains(sep) by {
            assert(front[i] == xs[i]);
        }
        lemma_split_join(front, sep);
        let j = join_on(front, sep);
        let jp = j.push(sep);
        assert(jp.drop_last() =~= j);
        assert(split_on(jp, sep) == split_on(j, sep).push(Seq::<char>::empty()));
        assert(!xs[xs.len() - 1].contains(sep));
        lemma_split_extend(jp, xs.last(), sep);
        assert(Seq::<char>::empty() + xs.last() =~= xs.last());
        assert(front.push(xs.last()) =~= xs);
    }
}

/// Adding pieces that the table already holds leaves it as it is.
pub proof fn lemma_add_lines_present(ls: Seq<Seq<char>>, ps: Seq<Seq<char>>)
    requires
        forall|i: int| 0 <= i < ps.len() ==> ls.contains(#[trigger] ps[i]),
    ensures
        add_lines(ls, ps) == ls,
    decreases ps.len(),
{
    if ps.len() > 0 {
        let front = ps.drop_last();
        assert forall|i: int| 0 <= i < front.len() implies ls.contains(#[trigger] front[i]) by {
            assert(front[i] == ps[i]);
        }
        lemma_add_lines_present(ls, front);
        assert(ls.contains(ps[ps.len() - 1]));
    }
}

/// Joining the pieces of a split gives back the text.
pub proof fn lemma_join_split(s: Seq<char>, sep: char)
    ensures
        join_on(split_on(s, sep), sep) == s,
    decreases s.len(),
{
    if s.len() == 0 {
        assert(join_on(split_on(s, sep), sep) =~= s);
    } else {
        let rest = split_on(s.drop_last(), sep);
        lemma_join_split(s.drop_last(), sep);
        lemma_split_nonempty(s.drop_last(), sep);
        if s.last() == sep {
            let r2 = rest.push(Seq::<char>::empty());
            assert(r2.drop_last() =~= rest);
            assert(join_on(r2, sep) =~= s);
        } else {
            lemma_join_extend_last(rest, sep, s.last());
            assert(join_on(split_on(s, sep), sep) =~= s);
        }
    }
}

/// The pieces of `s` that each run up to and including a separator, as
/// `str::split_inclusive` gives them: no piece for empty text, and a last
/// piece without separator where the text does not end with one.
pub open spec fn split_inclusive_on(s: Seq<char>, sep: char) -> Seq<Seq<char>>
    decreases s.len(),
{
    if s.len() == 0 {
        Seq::empty()
    } else {
        let rest = split_inclusive_on(s.drop_last(), sep);
        if rest.len() == 0 || rest.last().last() == sep {
            rest.push(seq![s.last()])
        } else {
            rest.update(rest.len() - 1, rest.last().push(s.last()))
        }
    }
}

/// The pieces of `ls`, one after another.
pub open spec fn concat(ls: Seq<Seq<char>>) -> Seq<char>
    decreases ls.len(),
{
    if ls.len() == 0 {
        Seq::empty()
    } else {
        concat(ls.drop_last()) + ls.last()
    }
}

proof fn lemma_concat_extend_last(ls: Seq<Seq<char>>, c: char)
    requires
        ls.len() >= 1,
    ensures
        concat(ls.update(ls.len() - 1, ls.last().push(c))) == concat(ls).push(c),
{
    let ls2 = ls.update(ls.len() - 1, ls.last().push(c));
    assert(ls2.drop_last() =~= ls.drop_last());
    assert(concat(ls2) =~= concat(ls).push(c));
}

/// The pieces of a split are non-empty, and only the last of each may lack the separator.
pub proof fn lemma_split_inclusive_pieces(s: Seq<char>, sep: char)
    ensures
        concat(split_inclusive_on(s, sep)) == s,
        forall|i: int| 0 <= i < split_inclusive_on(s, sep).len() ==> (#[trigger] split_inclusive_on(s, sep)[i]).len() > 0,
    decreases s.len(),
{
    if s.len() == 0 {
        assert(concat(split_inclusive_on(s, sep)) =~= s);
    } else {
        let rest = split_inclusive_on(s.drop_last(), sep);
        lemma_split_inclusive_pieces(s.drop_last(), sep);
        if rest.len() == 0 || rest.last().last() == sep {
            let r2 = rest.push(seq![s.last()]);
            assert(r2.drop_last() =~= rest);
            assert(concat(r2) =~= s);
        } else {
            lemma_concat_extend_last(rest, s.last());
            assert(concat(split_inclusive_on(s, sep)) =~= s);
        }
        let p = split_inclusive_on(s, sep);
        assert forall|i: int| 0 <= i < p.len() implies (#[trigger] p[i]).len() > 0 by {
            if i < rest.len() {
                assert(rest[i].len() > 0);
            }
        }
    }
}

proof fn lemma_split_inclusive_append_piece(a: Seq<char>, y: Seq<char>)
    requires
        split_inclusive_on(a, '\n').len() == 0 || split_inclusive_on(a, '\n').last().last() == '\n',
        y.len() > 0,
        !y.drop_last().contains('\n'),
    ensures
        split_inclusive_on(a + y, '\n') == split_inclusive_on(a, '\n').push(y),
    decreases y.len(),
{
    let sa = split_inclusive_on(a, '\n');
    if y.len() == 1 {
        assert((a + y).drop_last() =~= a);
        assert(y =~= seq![(a + y).last()]);
    } else {
        let y2 = y.drop_last();
        assert(!y2.drop_last().contains('\n')) by {
            if y2.drop_last().contains('\n') {
                let k = choose|k: int| 0 <= k < y2.drop_last().len() && y2.drop_last()[k] == '\n';
                assert(y.drop_last()[k] == '\n');
            }
        }
        lemma_split_inclusive_append_piece(a, y2);
        assert((a + y).drop_last() =~= a + y2);
        assert(y2.last() != '\n') by {
            assert(y.drop_last()[y2.len() - 1] == y2.last());
        }
        assert(y =~= y2.push((a + y).last()));
        let rest = sa.push(y2);
        assert(rest.update(rest.len() - 1, rest.last().push((a + y).last())) =~= sa.push(y));
    }
}

/// Pieces that each end with their one newline are split back apart.
pub proof fn lemma_split_inclusive_concat(ls: Seq<Seq<char>>)
    requires
        forall|i: int| 0 <= i < ls.len() ==> {
            &&& (#[trigger] ls[i]).len() > 0
            &&& ls[i].last() == '\n'
            &&& !ls[i].drop_last().contains('\n')
        },
    ensures
        split_inclusive_on(concat(ls), '\n') == ls,
        ls.len() == 0 || ls.last().last() == '\n',
    decreases ls.len(),
{
    if ls.len() > 0 {
        let l2 = ls.drop_last();
        assert forall|i: int| 0 <= i < l2.len() implies {
            &&& (#[trigger] l2[i]).len() > 0
            &&& l2[i].last() == '\n'
            &&& !l2[i].drop_last().contains('\n')
        } by {
            assert(l2[i] == ls[i]);
        }
        lemma_split_inclusive_concat(l2);
        assert(ls[ls.len() - 1] == ls.last());
        lemma_split_inclusive_append_piece(concat(l2), ls.last());
        assert(l2.push(ls.last()) =~= ls);
    } else {
        assert(concat(ls) =~= Seq::<char>::empty());
    }
}

/// Text without the separator is one piece.
pub proof fn lemma_split_single(a: Seq<char>, sep: char)
    requires
        !a.contains(sep),
    ensures
        split_on(a, sep) == seq![a],
    decreases a.len(),
{
    if a.len() == 0 {
        assert(a =~= Seq::<char>::empty());
        assert(split_on(a, sep) =~= seq![a]);
    } else {
        assert(!a.drop_last().contains(sep)) by {
            if a.drop_last().contains(sep) {
                let k = choose|k: int| 0 <= k < a.drop_last().len() && a.drop_last()[k] == sep;
                assert(a[k] == sep);
            }
        }
        lemma_split_single(a.drop_last(), sep);
        assert(a[a.len() - 1] == a.last());
        assert(a.drop_last().push(a.last()) =~= a);
    }
}

/// Appending text without the separator extends the last piece.
pub proof fn lemma_split_extend(x: Seq<char>, b: Seq<char>, sep: char)
    requires
        !b.contains(sep),
    ensures
        split_on(x + b, sep) == split_on(x, sep).update(split_on(x, sep).len() - 1, split_on(x, sep).last() + b),
    decreases b.len(),
{
    lemma_split_nonempty(x, sep);
    let sx = split_on(x, sep);
    if b.len() == 0 {
        assert(x + b =~= x);
        assert(sx.last() + b =~= sx.last());
        assert(sx.update(sx.len() - 1, sx.last()) =~= sx);
    } else {
        let b2 = b.drop_last();
        assert(!b2.contains(sep)) by {
            if b2.contains(sep) {
                let k = choose|k: int| 0 <= k < b2.len() && b2[k] == sep;
                assert(b[k] == sep);
            }
        }
        lemma_split_extend(x, b2, sep);
        assert((x + b).drop_last() =~= x + b2);
        assert((x + b).last() == b.last());
        assert(b[b.len() - 1] == b.last());
        let r = split_on(x + b2, sep);
        assert(r.last() == sx.last() + b2);
        assert((sx.last() + b2).push(b.last()) =~= sx.last() + b);
        assert(r.update(r.len() - 1, r.last().push(b.last())) =~= sx.update(sx.len() - 1, sx.last() + b));
    }
}

/// Two pieces without the separator, joined by it, split back into the two.
pub proof fn lemma_split_pair(a: Seq<char>, b: Seq<char>, sep: char)
    requires
        !a.contains(sep),
        !b.contains(sep),
    ensures
        split_on(a + seq![sep] + b, sep) == seq![a, b],
{
    lemma_split_single(a, sep);
    let x = a + seq![sep];
    assert(x.drop_last() =~= a);
    assert(x.last() == sep);
    assert(split_on(x, sep) =~= seq![a, Seq::<char>::empty()]);
    lemma_split_extend(x, b, sep);
    assert(Seq::<char>::empty() + b =~= b);
    assert(split_on(x + b, sep) =~= seq![a, b]);
}

/// Appends a character to a string.
#[verifier::external_body]
pub(crate) fn push_char(s: &mut String, c: char)
    ensures
        final(s)@ == old(s)@.push(c),
{
    s.push(c)
}

/// The pieces of `s` between occurrences of `sep`.
pub fn split_str(s: &str, sep: char) -> (pieces: Vec<String>)
    ensures
        pieces@.map_values(|p: String| p@) == split_on(s@, sep),
{
    let mut pieces: Vec<String> = Vec::new();
    let mut current = String::new();
    let ghost mut seen: Seq<char> = Seq::empty();
    for c in it: s.chars()
        invariant
            it.seq() == s@,
            seen == s@.take(it.index()),
            pieces@.map_values(|p: String| p@).push(current@) == split_on(seen, sep),
    {
        proof {
            assert(s@.take(it.index() + 1).drop_last() =~= seen);
        }
        if c == sep {
            pieces.push(current);
            current = String::new();
        } else {
            push_char(&mut current, c);
        }
        proof {
            seen = s@.take(it.index() + 1);
        }
    }
    proof {
        assert(seen =~= s@);
    }
    let ghost before = pieces@;
    pieces.push(current);
    assert(pieces@.map_values(|p: String| p@) =~= before.map_values(|p: String| p@).push(current@));
    pieces
}

/// The views of a vector of strings.
pub open spec fn string_views(v: Seq<String>) -> Seq<Seq<char>> {
    v.map_values(|p: String| p@)
}

/// The line table `ls` after each piece of `ps` that it lacks was appended in turn.
pub open spec fn add_lines(ls: Seq<Seq<char>>, ps: Seq<Seq<char>>) -> Seq<Seq<char>>
    decreases ps.len(),
{
    if ps.len() == 0 {
        ls
    } else {
        let prev = add_lines(ls, ps.drop_last());
        if prev.contains(ps.last()) {
            prev
        } else {
            prev.push(ps.last())
        }
    }
}

/// Adding lines keeps the table, keeps it free of duplicates and makes it hold every piece.
pub proof fn lemma_add_lines(ls: Seq<Seq<char>>, ps: Seq<Seq<char>>)
    requires
        ls.no_duplicates(),
    ensures
        add_lines(ls, ps).no_duplicates(),
        add_lines(ls, ps).len() >= ls.len(),
        add_lines(ls, ps).subrange(0, ls.len() as int) == ls,
        forall|i: int| 0 <= i < ps.len() ==> add_lines(ls, ps).contains(#[trigger] ps[i]),
        forall|x: Seq<char>| #[trigger] add_lines(ls, ps).contains(x) ==> ls.contains(x) || ps.contains(x),
    decreases ps.len(),
{
    if ps.len() > 0 {
        let prev = add_lines(ls, ps.drop_last());
        lemma_add_lines(ls, ps.drop_last());
        assert forall|i: int| 0 <= i < ps.len() implies add_lines(ls, ps).contains(#[trigger] ps[i]) by {
            if i < ps.len() - 1 {
                assert(ps.drop_last()[i] == ps[i]);
                let k = choose|k: int| 0 <= k < prev.len() && prev[k] == ps[i];
                assert(add_lines(ls, ps)[k] == ps[i]);
            } else if !prev.contains(ps.last()) {
                assert(add_lines(ls, ps)[prev.len() as int] == ps[i]);
            }
        }
        assert forall|x: Seq<char>| #[trigger] add_lines(ls, ps).contains(x) implies ls.contains(x) || ps.contains(x) by {
            if prev.contains(x) {
                if ps.drop_last().contains(x) {
                    let k = choose|k: int| 0 <= k < ps.drop_last().len() && ps.drop_last()[k] == x;
                    assert(ps[k] == x);
                }
            } else {
                assert(x == ps.last());
                assert(ps[ps.len() - 1] == x);
            }
        }
        assert(add_lines(ls, ps).subrange(0, ls.len() as int) =~= ls);
    }
}

/// The position of `x` in `ls`, where it is present.
pub fn find_line(lines: &Vec<String>, x: &String) -> (found: Option<usize>)
    ensures
        match found {
            Some(i) => i < lines.len() && lines@[i as int]@ == x@,
            None => !string_views(lines@).contains(x@),
        },
        found is Some ==> string_views(lines@).no_duplicates() ==> found == Some(string_views(lines@).index_of(x@) as usize),
{
    let mut i: usize = 0;
    while i < lines.len()
        invariant
            i <= lines.len(),
            forall|k: int| 0 <= k < i ==> lines@[k]@ != x@,
        decreases lines.len() - i,
    {
        if lines[i] == *x {
            proof {
                let ls = string_views(lines@);
                assert(ls[i as int] == x@);
                if ls.no_duplicates() {
                    let j = ls.index_of(x@);
                    assert(ls.contains(x@));
                }
            }
            return Some(i);
        }
        i = i + 1;
    }
    proof {
        let ls = string_views(lines@);
        if ls.contains(x@) {
            let k = choose|k: int| 0 <= k < ls.len() && ls[k] == x@;
            assert(lines@[k]@ == x@);
        }
    }
    None
}

/// The run of consecutive numbers from `a` up to, not including, `b`.
pub open spec fn run(a: int, b: int) -> Seq<int> {
    Seq::new((if b >= a { b - a } else { 0 }) as nat, |k: int| a + k)
}

/// The numbers that a list of ranges covers, range by range.
pub open spec fn expand(ranges: Seq<(u64, u64)>) -> Seq<int>
    decreases ranges.len(),
{
    if ranges.len() == 0 {
        Seq::empty()
    } else {
        expand(ranges.drop_last()) + run(ranges.last().0 as int, ranges.last().1 as int)
    }
}

pub proof fn lemma_expand_push(ranges: Seq<(u64, u64)>, r: (u64, u64))
    ensures
        expand(ranges.push(r)) == expand(ranges) + run(r.0 as int, r.1 as int),
{
    assert(ranges.push(r).drop_last() =~= ranges);
}

/// The pieces of `parts` with `sep` between each two neighbours.
pub fn join_strings(parts: &Vec<String>, sep: char) -> (joined: String)
    ensures
        joined@ == join_on(string_views(parts@), sep),
{
    let mut joined = String::new();
    if parts.len() == 0 {
        return joined;
    }
    joined.append(parts[0].as_str());
    proof {
        assert(string_views(parts@.take(1)) =~= seq![parts@[0]@]);
    }
    let mut i: usize = 1;
    while i < parts.len()
        invariant
            1 <= i <= parts.len(),
            joined@ == join_on(string_views(parts@.take(i as int)), sep),
        decreases parts.len() - i,
    {
        proof {
            let t = string_views(parts@.take(i as int + 1));
            assert(t.drop_last() =~= string_views(parts@.take(i as int)));
        }
        push_char(&mut joined, sep);
        joined.append(parts[i].as_str());
        i = i + 1;
    }
    proof {
        assert(parts@.take(i as int) =~= parts@);
    }
    joined
}

/// The pieces of `s` that each run up to and including a separator.
pub fn split_str_inclusive(s: &str, sep: char) -> (pieces: Vec<String>)
    ensures
        string_views(pieces@) == split_inclusive_on(s@, sep),
{
    let mut pieces: Vec<String> = Vec::new();
    let mut current = String::new();
    let mut has_current = false;
    let ghost mut seen: Seq<char> = Seq::empty();
    for c in it: s.chars()
        invariant
            it.seq() == s@,
            seen == s@.take(it.index()),
            has_current ==> string_views(pieces@).push(current@) == split_inclusive_on(seen, sep)
                && current@.len() > 0 && current@.last() != sep,
            !has_current ==> string_views(pieces@) == split_inclusive_on(seen, sep)
                && (string_views(pieces@).len() == 0 || string_views(pieces@).last().last() == sep),
    {
        let ghost next = s@.take(it.index() + 1);
        proof {
            assert(next.drop_last() =~= seen);
            assert(next.last() == c);
        }
        let ghost before = string_views(pieces@);
        let ghost cur = current@;
        if has_current {
            push_char(&mut current, c);
            proof {
                let rest = before.push(cur);
                assert(rest.last() == cur);
                assert(split_inclusive_on(next, sep) == rest.update(rest.len() - 1, rest.last().push(c)));
                assert(before.push(current@) =~= rest.update(rest.len() - 1, rest.last().push(c)));
            }
        } else {
            current = String::new();
            push_char(&mut current, c);
            proof {
                assert(current@ =~= seq![c]);
                assert(split_inclusive_on(next, sep) == before.push(seq![c]));
            }
            has_current = true;
        }
        proof {
            assert(before.push(current@) == split_inclusive_on(next, sep));
            assert(current@.last() == c);
        }
        if c == sep {
            let piece = current;
            current = String::new();
            pieces.push(piece);
            has_current = false;
            proof {
                assert(string_views(pieces@) =~= before.push(piece@));
            }
        }
        proof {
            seen = next;
        }
    }
    proof {
        assert(seen =~= s@);
    }
    if has_current {
        let ghost before = pieces@;
        pieces.push(current);
        assert(string_views(pieces@) =~= string_views(before).push(current@));
    }
    pieces
}

/// The pieces of `parts`, one after another.
pub fn concat_strings(parts: &Vec<String>) -> (joined: String)
    ensures
        joined@ == concat(string_views(parts@)),
{
    let mut joined = String::new();
    let mut i: usize = 0;
    assert(string_views(parts@.take(0)) =~= Seq::<Seq<char>>::empty());
    while i < parts.len()
        invariant
            i <= parts.len(),
            joined@ == concat(string_views(parts@.take(i as int))),
        decreases parts.len() - i,
    {
        proof {
            let t = string_views(parts@.take(i as int + 1));
            assert(t.drop_last() =~= string_views(parts@.take(i as int)));
        }
        joined.append(parts[i].as_str());
        i = i + 1;
    }
    proof {
        assert(parts@.take(i as int) =~= parts@);
    }
    joined
}

} // verus!
