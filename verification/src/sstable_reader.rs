//! The catalog of a store's tables: for each level the open tables, level
//! 0 in the order in which they were added, every other level sorted by
//! first key.

use crate::manifest::{names_without, FileMeta, ManifestBuilder};
use crate::manifest::{name_in, name_listed};
use crate::options::Options;
use crate::sstable::result::{MyResult, Status, StatusCode};
use crate::sstable::table_format::lookup;
use crate::sstable::table_reader::TableReader;
use crate::util::{
    bytes_le, bytes_lt, copy_range, lemma_lex_le_iff_not_gt, lemma_lex_le_lt,
    lemma_lex_le_transitive, lemma_lex_total, lemma_lex_transitive, lex_le, lex_lt,
};
use vstd::prelude::*;

verus! {

/// The catalog.
pub struct SstableReader {
    opt_: Options,
    readers_: Vec<Vec<TableReader>>,
    manifest_builder_: ManifestBuilder,
}

/// Whether `key` lies between the first and the last key of a table.
pub open spec fn in_range(r: TableReader, key: Seq<u8>) -> bool {
    lex_le(r.min_key_@, key) && lex_le(key, r.max_key_@)
}

/// The tables are in the order of their first keys.
pub open spec fn sorted_by_min(s: Seq<TableReader>) -> bool {
    forall|i: int, j: int|
        0 <= i < j < s.len() ==> lex_le((#[trigger] s[i]).min_key_@, (#[trigger] s[j]).min_key_@)
}

/// No two tables overlap: the last key of each is below the first key of
/// all that come later.
pub open spec fn disjoint(s: Seq<TableReader>) -> bool {
    forall|i: int, j: int|
        0 <= i < j < s.len() ==> lex_lt((#[trigger] s[i]).max_key_@, (#[trigger] s[j]).min_key_@)
}

/// Where a table goes into a sorted run: behind the last table whose
/// first key is at or below its own.
pub open spec fn insert_pos(s: Seq<TableReader>, x: TableReader) -> int
    decreases s.len(),
{
    if s.len() == 0 {
        0
    } else if lex_lt(x.min_key_@, s.last().min_key_@) {
        insert_pos(s.drop_last(), x)
    } else {
        s.len() as int
    }
}

/// A sorted run with one more table at its place.
pub open spec fn sorted_insert(s: Seq<TableReader>, x: TableReader) -> Seq<TableReader> {
    s.insert(insert_pos(s, x), x)
}

/// The tables sorted by first key; tables with the same first key keep
/// their order.
pub open spec fn sort_by_min(s: Seq<TableReader>) -> Seq<TableReader>
    decreases s.len(),
{
    if s.len() == 0 {
        Seq::empty()
    } else {
        sorted_insert(sort_by_min(s.drop_last()), s.last())
    }
}

/// The tables of level 0 that may hold `key`, the one added last first.
pub open spec fn candidates_l0(s: Seq<TableReader>, key: Seq<u8>) -> Seq<int>
    decreases s.len(),
{
    if s.len() == 0 {
        Seq::empty()
    } else if in_range(s.last(), key) {
        seq![s.len() - 1] + candidates_l0(s.drop_last(), key)
    } else {
        candidates_l0(s.drop_last(), key)
    }
}

/// Where the search of a sorted level starts: at the last table whose
/// first key is below `key`, or at the first table where there is none.
pub open spec fn search_start(s: Seq<TableReader>, key: Seq<u8>) -> int
    decreases s.len(),
{
    if s.len() <= 1 {
        0
    } else if lex_lt(s.last().min_key_@, key) {
        s.len() - 1
    } else {
        search_start(s.drop_last(), key)
    }
}

/// The tables from `i` on that may hold `key`, up to the first table that
/// starts above `key`.
pub open spec fn candidates_from(s: Seq<TableReader>, i: int, key: Seq<u8>) -> Seq<int>
    decreases s.len() - i,
{
    if i < 0 || i >= s.len() {
        Seq::empty()
    } else if in_range(s[i], key) {
        seq![i] + candidates_from(s, i + 1, key)
    } else if lex_lt(key, s[i].min_key_@) {
        Seq::empty()
    } else {
        candidates_from(s, i + 1, key)
    }
}

/// The tables of a level that a lookup of `key` asks, in the order in
/// which it asks them.
pub open spec fn candidates(s: Seq<TableReader>, level: int, key: Seq<u8>) -> Seq<int> {
    if level == 0 {
        candidates_l0(s, key)
    } else {
        candidates_from(s, search_start(s, key), key)
    }
}

/// What the tables with the numbers `idxs[from..]` hold under `key`: the
/// value of the first that holds the key.
pub open spec fn first_found(s: Seq<TableReader>, idxs: Seq<int>, from: int, key: Seq<u8>) -> Option<
    Seq<u8>,
>
    decreases idxs.len() - from,
{
    if from < 0 || from >= idxs.len() {
        None
    } else {
        match lookup(s[idxs[from]].entries(), key) {
            Some(v) => Some(v),
            None => first_found(s, idxs, from + 1, key),
        }
    }
}

/// What the levels from `from` on hold under `key`: the value of the
/// first table that holds the key, level by level, in each level in the
/// order of `candidates`.
pub open spec fn catalog_lookup(levels: Seq<Seq<TableReader>>, from: int, key: Seq<u8>) -> Option<
    Seq<u8>,
>
    decreases levels.len() - from,
{
    if from < 0 || from >= levels.len() {
        None
    } else {
        match first_found(levels[from], candidates(levels[from], from, key), 0, key) {
            Some(v) => Some(v),
            None => catalog_lookup(levels, from + 1, key),
        }
    }
}

/// Sorting a sorted run changes nothing.
pub proof fn lemma_sort_sorted(s: Seq<TableReader>)
    requires
        sorted_by_min(s),
    ensures
        sort_by_min(s) == s,
    decreases s.len(),
{
    if s.len() > 0 {
        let front = s.drop_last();
        lemma_sort_sorted(front);
        if front.len() > 0 {
            assert(front.last() == s[s.len() - 2]);
            assert(lex_le(s[s.len() - 2].min_key_@, s[s.len() - 1].min_key_@));
            lemma_lex_le_iff_not_gt(front.last().min_key_@, s.last().min_key_@);
        }
        assert(front.insert(front.len() as int, s.last()) =~= s);
    }
}

/// Where a table goes into a sorted run, all tables before have first
/// keys at or below its own, and all tables behind have first keys above.
pub proof fn lemma_insert_pos(s: Seq<TableReader>, x: TableReader)
    requires
        sorted_by_min(s),
    ensures
        0 <= insert_pos(s, x) <= s.len(),
        forall|i: int|
            0 <= i < insert_pos(s, x) ==> lex_le((#[trigger] s[i]).min_key_@, x.min_key_@),
        forall|i: int|
            insert_pos(s, x) <= i < s.len() ==> lex_lt(x.min_key_@, (#[trigger] s[i]).min_key_@),
    decreases s.len(),
{
    if s.len() == 0 {
    } else if lex_lt(x.min_key_@, s.last().min_key_@) {
        let front = s.drop_last();
        lemma_insert_pos(front, x);
        assert forall|i: int| 0 <= i < insert_pos(s, x) implies lex_le(
            (#[trigger] s[i]).min_key_@,
            x.min_key_@,
        ) by {
            assert(s[i] == front[i]);
        }
        assert forall|i: int| insert_pos(s, x) <= i < s.len() implies lex_lt(
            x.min_key_@,
            (#[trigger] s[i]).min_key_@,
        ) by {
            if i < front.len() {
                assert(s[i] == front[i]);
            }
        }
    } else {
        lemma_lex_le_iff_not_gt(s.last().min_key_@, x.min_key_@);
        assert forall|i: int| 0 <= i < s.len() implies lex_le(
            (#[trigger] s[i]).min_key_@,
            x.min_key_@,
        ) by {
            if i < s.len() - 1 {
                assert(lex_le(s[i].min_key_@, s[s.len() - 1].min_key_@));
                lemma_lex_le_transitive(s[i].min_key_@, s.last().min_key_@, x.min_key_@);
            }
        }
    }
}

/// A sorted run with one more table at its place is sorted.
pub proof fn lemma_sorted_insert(s: Seq<TableReader>, x: TableReader)
    requires
        sorted_by_min(s),
    ensures
        sorted_by_min(sorted_insert(s, x)),
        sorted_insert(s, x).len() == s.len() + 1,
{
    lemma_insert_pos(s, x);
    let p = insert_pos(s, x);
    let t = sorted_insert(s, x);
    assert forall|i: int, j: int| 0 <= i < j < t.len() implies lex_le(
        (#[trigger] t[i]).min_key_@,
        (#[trigger] t[j]).min_key_@,
    ) by {
        if j < p {
            assert(t[i] == s[i] && t[j] == s[j]);
        } else if j == p {
            assert(t[i] == s[i]);
        } else if i < p {
            assert(t[i] == s[i] && t[j] == s[j - 1]);
        } else if i == p {
            assert(t[j] == s[j - 1]);
        } else {
            assert(t[i] == s[i - 1] && t[j] == s[j - 1]);
        }
    }
}

/// Sorting gives a sorted run of the same length.
pub proof fn lemma_sort_by_min(s: Seq<TableReader>)
    ensures
        sorted_by_min(sort_by_min(s)),
        sort_by_min(s).len() == s.len(),
    decreases s.len(),
{
    if s.len() > 0 {
        lemma_sort_by_min(s.drop_last());
        lemma_sorted_insert(sort_by_min(s.drop_last()), s.last());
    }
}

/// Tables that do not overlap, in the order of their keys, are sorted by
/// first key, where no table's first key is above its last.
pub proof fn lemma_disjoint_sorted(s: Seq<TableReader>)
    requires
        disjoint(s),
        forall|i: int| 0 <= i < s.len() ==> lex_le((#[trigger] s[i]).min_key_@, s[i].max_key_@),
    ensures
        sorted_by_min(s),
{
    assert forall|i: int, j: int| 0 <= i < j < s.len() implies lex_le(
        (#[trigger] s[i]).min_key_@,
        (#[trigger] s[j]).min_key_@,
    ) by {
        lemma_lex_le_lt(s[i].min_key_@, s[i].max_key_@, s[j].min_key_@);
    }
}

/// Level disjointness: a level whose tables do not overlap stays so when
/// a table is added that overlaps none of them.
pub proof fn lemma_add_keeps_disjoint(s: Seq<TableReader>, x: TableReader)
    requires
        disjoint(s),
        lex_le(x.min_key_@, x.max_key_@),
        forall|i: int|
            0 <= i < s.len() ==> lex_lt((#[trigger] s[i]).max_key_@, x.min_key_@) || lex_lt(
                x.max_key_@,
                s[i].min_key_@,
            ),
        forall|i: int| 0 <= i < s.len() ==> lex_le((#[trigger] s[i]).min_key_@, s[i].max_key_@),
    ensures
        disjoint(sort_by_min(s.push(x))),
        sort_by_min(s.push(x)) == sorted_insert(s, x),
{
    lemma_disjoint_sorted(s);
    lemma_sort_sorted(s);
    assert(s.push(x).drop_last() =~= s);
    lemma_insert_pos(s, x);
    let p = insert_pos(s, x);
    let t = sorted_insert(s, x);
    assert forall|i: int, j: int| 0 <= i < j < t.len() implies lex_lt(
        (#[trigger] t[i]).max_key_@,
        (#[trigger] t[j]).min_key_@,
    ) by {
        if j < p {
            assert(t[i] == s[i] && t[j] == s[j]);
        } else if j == p {
            // s[i] starts at or below x; it does not overlap x, so it ends below x.
            assert(t[i] == s[i]);
            if lex_lt(x.max_key_@, s[i].min_key_@) {
                lemma_lex_le_lt(x.min_key_@, x.max_key_@, s[i].min_key_@);
                lemma_lex_total(x.min_key_@, s[i].min_key_@);
            }
        } else if i < p {
            assert(t[i] == s[i] && t[j] == s[j - 1]);
        } else if i == p {
            // s[j - 1] starts above x; it does not overlap x, so x ends below it.
            assert(t[j] == s[j - 1]);
            if lex_lt(s[j - 1].max_key_@, x.min_key_@) {
                lemma_lex_le_lt(s[j - 1].min_key_@, s[j - 1].max_key_@, x.min_key_@);
                lemma_lex_total(x.min_key_@, s[j - 1].min_key_@);
            }
        } else {
            assert(t[i] == s[i - 1] && t[j] == s[j - 1]);
        }
    }
}

/// The tables of `s` whose file names are not among `names`, in order.
pub open spec fn readers_without(s: Seq<TableReader>, names: Seq<String>) -> Seq<TableReader>
    decreases s.len(),
{
    if s.len() == 0 {
        Seq::empty()
    } else if name_listed(names, s.last().file_name_@) {
        readers_without(s.drop_last(), names)
    } else {
        readers_without(s.drop_last(), names).push(s.last())
    }
}

/// What is left of a run when tables are removed is a subsequence: every
/// table left was there, and tables left keep their order.
pub proof fn lemma_without_subseq(s: Seq<TableReader>, names: Seq<String>) -> (m: Seq<int>)
    ensures
        m.len() == readers_without(s, names).len(),
        forall|k: int| 0 <= k < m.len() ==> 0 <= #[trigger] m[k] < s.len() && readers_without(
            s,
            names,
        )[k] == s[m[k]],
        forall|a: int, b: int| 0 <= a < b < m.len() ==> #[trigger] m[a] < #[trigger] m[b],
    decreases s.len(),
{
    if s.len() == 0 {
        Seq::empty()
    } else {
        let m0 = lemma_without_subseq(s.drop_last(), names);
        if name_listed(names, s.last().file_name_@) {
            m0
        } else {
            m0.push(s.len() - 1)
        }
    }
}

/// Level disjointness: a level whose tables do not overlap stays so when
/// tables are removed, and a sorted level stays sorted.
pub proof fn lemma_remove_keeps_disjoint(s: Seq<TableReader>, names: Seq<String>)
    ensures
        disjoint(s) ==> disjoint(readers_without(s, names)),
        sorted_by_min(s) ==> sorted_by_min(readers_without(s, names)),
{
    let m = lemma_without_subseq(s, names);
    let t = readers_without(s, names);
    if disjoint(s) {
        assert forall|i: int, j: int| 0 <= i < j < t.len() implies lex_lt(
            (#[trigger] t[i]).max_key_@,
            (#[trigger] t[j]).min_key_@,
        ) by {
            assert(m[i] < m[j]);
            assert(lex_lt(s[m[i]].max_key_@, s[m[j]].min_key_@));
        }
    }
    if sorted_by_min(s) {
        assert forall|i: int, j: int| 0 <= i < j < t.len() implies lex_le(
            (#[trigger] t[i]).min_key_@,
            (#[trigger] t[j]).min_key_@,
        ) by {
            assert(m[i] < m[j]);
            assert(lex_le(s[m[i]].min_key_@, s[m[j]].min_key_@));
        }
    }
}

/// The file meta of a table.
pub fn table_reader_to_file_meta(reader: &TableReader) -> (fm: FileMeta)
    ensures
        fm.file_name@ == reader.file_name_@,
{
    FileMeta { file_name: reader.file_name().clone() }
}

/// Sorts tables by their first keys; tables with the same first key keep
/// their order.
pub fn sort_readers(readers: &mut Vec<TableReader>)
    ensures
        final(readers)@ == sort_by_min(old(readers)@),
        sorted_by_min(final(readers)@),
        final(readers)@.len() == old(readers)@.len(),
{
    let ghost orig = readers@;
    let n = readers.len();
    let mut i: usize = 0;
    proof {
        assert(orig.take(0) =~= Seq::<TableReader>::empty());
        assert(orig.skip(0) =~= orig);
        lemma_sort_by_min(orig);
    }
    while i < n
        invariant
            i <= n,
            n == orig.len(),
            readers@ == sort_by_min(orig.take(i as int)) + orig.skip(i as int),
        decreases n - i,
    {
        let ghost done = sort_by_min(orig.take(i as int));
        proof {
            lemma_sort_by_min(orig.take(i as int));
        }
        let x = readers.remove(i);
        assert(x == orig[i as int]);
        assert(readers@ =~= done + orig.skip(i + 1));
        assert(done.take(i as int) =~= done);
        let mut p: usize = i;
        while p > 0 && bytes_lt(x.min_key().as_slice(), readers[p - 1].min_key().as_slice())
            invariant
                p <= i,
                i == done.len(),
                readers@ == done + orig.skip(i + 1),
                insert_pos(done, x) == insert_pos(done.take(p as int), x),
            decreases p,
        {
            proof {
                assert(done.take(p as int).last() == readers@[p - 1]);
                assert(done.take(p as int).drop_last() =~= done.take(p - 1));
            }
            p -= 1;
        }
        proof {
            if p > 0 {
                assert(done.take(p as int).last() == readers@[p - 1]);
            }
            assert(done.take(i as int) =~= done);
            assert(insert_pos(done, x) == p);
        }
        readers.insert(p, x);
        proof {
            assert(orig.take(i + 1).drop_last() =~= orig.take(i as int));
            assert(orig.take(i + 1).last() == x);
            assert(readers@ =~= sorted_insert(done, x) + orig.skip(i + 1));
        }
        i += 1;
    }
    proof {
        assert(orig.take(n as int) =~= orig);
        assert(readers@ =~= sort_by_min(orig));
    }
}

/// Where a search of a sorted level starts, told by what it is: the
/// first table, or a table that starts below `key`, with no table behind
/// it that starts below `key`.
pub proof fn lemma_search_start(s: Seq<TableReader>, key: Seq<u8>, left: int)
    requires
        s.len() > 0,
        0 <= left < s.len(),
        left == 0 || lex_lt(s[left].min_key_@, key),
        forall|r: int| left < r < s.len() ==> !lex_lt((#[trigger] s[r]).min_key_@, key),
    ensures
        search_start(s, key) == left,
    decreases s.len(),
{
    if s.len() <= 1 {
    } else if lex_lt(s.last().min_key_@, key) {
        assert(s.last() == s[s.len() - 1]);
    } else {
        let front = s.drop_last();
        assert(left < s.len() - 1);
        assert(front[left] == s[left]);
        assert forall|r: int| left < r < front.len() implies !lex_lt(
            (#[trigger] front[r]).min_key_@,
            key,
        ) by {
            assert(front[r] == s[r]);
        }
        lemma_search_start(front, key, left);
    }
}

/// Every table of the run is well formed.
pub open spec fn all_wf(s: Seq<TableReader>) -> bool {
    forall|i: int| 0 <= i < s.len() ==> (#[trigger] s[i]).wf()
}

/// Sorting tables loses none and adds none: well-formed tables stay so.
pub proof fn lemma_sort_all_wf(s: Seq<TableReader>)
    requires
        all_wf(s),
    ensures
        all_wf(sort_by_min(s)),
    decreases s.len(),
{
    if s.len() > 0 {
        let front = s.drop_last();
        assert forall|i: int| 0 <= i < front.len() implies (#[trigger] front[i]).wf() by {
            assert(front[i] == s[i]);
        }
        lemma_sort_all_wf(front);
        lemma_sort_by_min(front);
        let t = sort_by_min(front);
        lemma_insert_pos(t, s.last());
        let p = insert_pos(t, s.last());
        let u = sort_by_min(s);
        assert forall|i: int| 0 <= i < u.len() implies (#[trigger] u[i]).wf() by {
            if i < p {
                assert(u[i] == t[i]);
            } else if i == p {
                assert(u[i] == s[s.len() - 1]);
            } else {
                assert(u[i] == t[i - 1]);
            }
        }
    }
}

/// What is left when tables are removed is well formed where all were.
pub proof fn lemma_without_all_wf(s: Seq<TableReader>, names: Seq<String>)
    requires
        all_wf(s),
    ensures
        all_wf(readers_without(s, names)),
{
    let m = lemma_without_subseq(s, names);
    let t = readers_without(s, names);
    assert forall|i: int| 0 <= i < t.len() implies (#[trigger] t[i]).wf() by {
        assert(t[i] == s[m[i]]);
    }
}

/// The tables that a lookup asks are tables of the level.
pub proof fn lemma_candidates_in_range(s: Seq<TableReader>, level: int, key: Seq<u8>)
    ensures
        forall|k: int|
            0 <= k < candidates(s, level, key).len() ==> 0 <= #[trigger] candidates(
                s,
                level,
                key,
            )[k] < s.len(),
{
    lemma_candidates_l0_in_range(s, key);
    lemma_candidates_from_in_range(s, search_start(s, key), key);
}

proof fn lemma_candidates_l0_in_range(s: Seq<TableReader>, key: Seq<u8>)
    ensures
        forall|k: int|
            0 <= k < candidates_l0(s, key).len() ==> 0 <= #[trigger] candidates_l0(s, key)[k]
                < s.len(),
    decreases s.len(),
{
    if s.len() > 0 {
        let rest = candidates_l0(s.drop_last(), key);
        lemma_candidates_l0_in_range(s.drop_last(), key);
        assert forall|k: int| 0 <= k < candidates_l0(s, key).len() implies 0
            <= #[trigger] candidates_l0(s, key)[k] < s.len() by {
            if in_range(s.last(), key) {
                if k > 0 {
                    assert(candidates_l0(s, key)[k] == rest[k - 1]);
                }
            } else {
                assert(candidates_l0(s, key)[k] == rest[k]);
            }
        }
    }
}

proof fn lemma_candidates_from_in_range(s: Seq<TableReader>, i: int, key: Seq<u8>)
    ensures
        forall|k: int|
            0 <= k < candidates_from(s, i, key).len() ==> 0 <= #[trigger] candidates_from(
                s,
                i,
                key,
            )[k] < s.len(),
    decreases s.len() - i,
{
    if 0 <= i < s.len() {
        let rest = candidates_from(s, i + 1, key);
        lemma_candidates_from_in_range(s, i + 1, key);
        assert forall|k: int| 0 <= k < candidates_from(s, i, key).len() implies 0
            <= #[trigger] candidates_from(s, i, key)[k] < s.len() by {
            if in_range(s[i], key) {
                if k > 0 {
                    assert(candidates_from(s, i, key)[k] == rest[k - 1]);
                }
            } else if lex_lt(key, s[i].min_key_@) {
            } else {
                assert(candidates_from(s, i, key)[k] == rest[k]);
            }
        }
    }
}

/// File `i` is the first of the given name.
pub open spec fn first_named(files: Seq<(String, Vec<u8>)>, name: Seq<char>, i: int) -> bool {
    &&& 0 <= i < files.len()
    &&& files[i].0@ == name
    &&& forall|j: int| 0 <= j < i ==> (#[trigger] files[j]).0@ != name
}

/// A file of the given name is there, and the first of them holds a
/// well-formed table.
pub open spec fn opens(files: Seq<(String, Vec<u8>)>, name: Seq<char>) -> bool {
    exists|i: int| #[trigger]
        first_named(files, name, i) && crate::sstable::table_format::table_wf(files[i].1@)
}

/// Every table that the manifest lists in its first `levels` levels
/// opens.
pub open spec fn all_open(
    names: Seq<Seq<Seq<char>>>,
    levels: int,
    files: Seq<(String, Vec<u8>)>,
) -> bool {
    forall|l: int, k: int|
        0 <= l < levels && l < names.len() && 0 <= k < names[l].len() ==> opens(
            files,
            #[trigger] names[l][k],
        )
}

/// The table holds the bytes of the first file of the given name.
pub open spec fn from_first(files: Seq<(String, Vec<u8>)>, name: Seq<char>, t: TableReader) -> bool {
    exists|i: int| #[trigger] first_named(files, name, i) && t.file@ == files[i].1@
}

/// `pre` holds the tables that `names` lists, in the order of the names:
/// each under its name, with the bytes of the first file of that name.
pub open spec fn opened_from(
    pre: Seq<TableReader>,
    names: Seq<Seq<char>>,
    files: Seq<(String, Vec<u8>)>,
) -> bool {
    &&& pre.len() == names.len()
    &&& forall|k: int|
        0 <= k < pre.len() ==> (#[trigger] pre[k]).file_name_@ == names[k] && from_first(
            files,
            names[k],
            pre[k],
        )
}

/// The names that a manifest lists for a level; none for a level that
/// it does not have.
pub open spec fn listed(names: Seq<Seq<Seq<char>>>, l: int) -> Seq<Seq<char>> {
    if 0 <= l < names.len() {
        names[l]
    } else {
        Seq::empty()
    }
}

/// A level as it is loaded: the tables that the manifest lists for it,
/// in the manifest's order in level 0, sorted by first key in every
/// other level.
pub open spec fn level_loaded(
    level: Seq<TableReader>,
    l: int,
    names: Seq<Seq<Seq<char>>>,
    files: Seq<(String, Vec<u8>)>,
) -> bool {
    exists|pre: Seq<TableReader>| #[trigger]
        opened_from(pre, listed(names, l), files) && level == (if l == 0 {
            pre
        } else {
            sort_by_min(pre)
        })
}

/// The index of the first file with the given name.
fn find_file(files: &Vec<(String, Vec<u8>)>, name: &String) -> (r: Option<usize>)
    ensures
        match r {
            Some(i) => first_named(files@, name@, i as int),
            None => forall|i: int| 0 <= i < files@.len() ==> (#[trigger] files@[i]).0@ != name@,
        },
{
    let mut i: usize = 0;
    while i < files.len()
        invariant
            i <= files@.len(),
            forall|k: int| 0 <= k < i ==> (#[trigger] files@[k]).0@ != name@,
        decreases files@.len() - i,
    {
        if files[i].0 == *name {
            return Some(i);
        }
        i += 1;
    }
    None
}

/// The level after tables were added one by one, sorted after each where
/// the level is sorted.
pub open spec fn add_all(s: Seq<TableReader>, xs: Seq<TableReader>, sorted: bool) -> Seq<
    TableReader,
>
    decreases xs.len(),
{
    if xs.len() == 0 {
        s
    } else if sorted {
        add_all(sort_by_min(s.push(xs[0])), xs.skip(1), sorted)
    } else {
        add_all(s.push(xs[0]), xs.skip(1), sorted)
    }
}

/// The names of a level in the manifest after tables were added.
pub open spec fn add_names(names: Seq<Seq<char>>, xs: Seq<TableReader>) -> Seq<Seq<char>>
    decreases xs.len(),
{
    if xs.len() == 0 {
        names
    } else {
        add_names(names.push(xs[0].file_name_@), xs.skip(1))
    }
}

/// L0 recency: where the table added last among those of level 0 whose
/// range holds the key has the key, a lookup gives its value.
pub proof fn lemma_l0_recency(levels: Seq<Seq<TableReader>>, key: Seq<u8>, i: int, v: Seq<u8>)
    requires
        levels.len() > 0,
        0 <= i < levels[0].len(),
        in_range(levels[0][i], key),
        forall|j: int| i < j < levels[0].len() ==> !in_range(#[trigger] levels[0][j], key),
        lookup(levels[0][i].entries(), key) == Some(v),
    ensures
        catalog_lookup(levels, 0, key) == Some(v),
{
    lemma_l0_first(levels[0], key, i);
}

/// The first table of level 0 that a lookup asks is the one added last
/// among those whose range holds the key.
pub proof fn lemma_l0_first(s: Seq<TableReader>, key: Seq<u8>, i: int)
    requires
        0 <= i < s.len(),
        in_range(s[i], key),
        forall|j: int| i < j < s.len() ==> !in_range(#[trigger] s[j], key),
    ensures
        candidates_l0(s, key).len() > 0,
        candidates_l0(s, key)[0] == i,
    decreases s.len(),
{
    if i < s.len() - 1 {
        assert(!in_range(s[s.len() - 1], key));
        let front = s.drop_last();
        assert(front[i] == s[i]);
        assert forall|j: int| i < j < front.len() implies !in_range(#[trigger] front[j], key) by {
            assert(front[j] == s[j]);
        }
        lemma_l0_first(front, key, i);
    }
}

/// In a level whose tables do not overlap a lookup asks one table at most.
pub proof fn lemma_disjoint_one_candidate(s: Seq<TableReader>, key: Seq<u8>, i: int)
    requires
        disjoint(s),
        forall|k: int| 0 <= k < s.len() ==> lex_le((#[trigger] s[k]).min_key_@, s[k].max_key_@),
    ensures
        candidates_from(s, i, key).len() <= 1,
    decreases s.len() - i,
{
    if 0 <= i < s.len() {
        if in_range(s[i], key) {
            // All later tables start above the end of this one, so above the key.
            if i + 1 < s.len() {
                assert(lex_lt(s[i].max_key_@, s[i + 1].min_key_@));
                lemma_lex_le_lt(key, s[i].max_key_@, s[i + 1].min_key_@);
                lemma_lex_total(key, s[i + 1].min_key_@);
                assert(!in_range(s[i + 1], key));
                assert(candidates_from(s, i + 1, key) =~= Seq::<int>::empty());
            } else {
                assert(candidates_from(s, i + 1, key) =~= Seq::<int>::empty());
            }
            assert(candidates_from(s, i, key) =~= seq![i] + candidates_from(s, i + 1, key));
        } else if lex_lt(key, s[i].min_key_@) {
        } else {
            lemma_disjoint_one_candidate(s, key, i + 1);
        }
    }
}

/// The bytes of the files of a level.
pub open spec fn level_size(s: Seq<TableReader>) -> nat
    decreases s.len(),
{
    if s.len() == 0 {
        0
    } else {
        level_size(s.drop_last()) + s.last().file@.len()
    }
}

/// Ten to the power of `k`.
pub open spec fn pow10(k: nat) -> nat
    decreases k,
{
    if k == 0 {
        1
    } else {
        10 * pow10((k - 1) as nat)
    }
}

/// The bytes that a level from 1 on may hold before it asks for
/// compaction: 10 MiB for level 1 and ten times as much for each level
/// after it.
pub open spec fn max_bytes_spec(level: int) -> nat {
    10485760 * pow10((level - 1) as nat)
}

/// The upper part of a level's score: the number of tables for level 0,
/// the bytes of the tables for every other level.
pub open spec fn score_num(levels: Seq<Seq<TableReader>>, l: int) -> nat {
    if l == 0 {
        levels[0].len()
    } else {
        level_size(levels[l])
    }
}

/// The lower part of a level's score: the compaction trigger for level
/// 0, the bytes that the level may hold for every other level.
pub open spec fn score_den(trigger: nat, l: int) -> nat {
    if l == 0 {
        trigger
    } else {
        max_bytes_spec(l)
    }
}

/// A level asks for compaction: its score is at least one.
pub open spec fn needs_compaction(levels: Seq<Seq<TableReader>>, trigger: nat, l: int) -> bool {
    score_num(levels, l) >= score_den(trigger, l)
}

/// The score of level `a` is above that of level `b`.
pub open spec fn higher_score(levels: Seq<Seq<TableReader>>, trigger: nat, a: int, b: int) -> bool {
    score_num(levels, a) * score_den(trigger, b) > score_num(levels, b) * score_den(trigger, a)
}

/// Level `a` is compacted before level `b`: it has the higher score, or
/// the same score and the lower number.
pub open spec fn comes_before(levels: Seq<Seq<TableReader>>, trigger: nat, a: int, b: int) -> bool {
    higher_score(levels, trigger, a, b) || (!higher_score(levels, trigger, b, a) && a < b)
}

/// A level's score, as a fraction.
#[derive(Clone, Copy)]
struct LevelScore {
    level: usize,
    num: u64,
    den: u64,
}

/// The product of two 64-bit numbers.
fn product(a: u64, b: u64) -> (r: u128)
    ensures
        r == a * b,
{
    assert(a * b <= 0xffff_ffff_ffff_ffff * 0xffff_ffff_ffff_ffff) by (nonlinear_arith)
        requires
            0 <= a <= 0xffff_ffff_ffff_ffff,
            0 <= b <= 0xffff_ffff_ffff_ffff,
    ;
    (a as u128) * (b as u128)
}

/// Whether the score `a` is below the score `b`.
fn score_below(a: &LevelScore, b: &LevelScore) -> (r: bool)
    ensures
        r == (a.num * b.den < b.num * a.den),
{
    product(a.num, b.den) < product(b.num, a.den)
}

proof fn lemma_fraction_order(an: nat, ad: nat, bn: nat, bd: nat, cn: nat, cd: nat)
    requires
        ad > 0,
        bd > 0,
        cd > 0,
        an * bd >= bn * ad,
        bn * cd >= cn * bd,
    ensures
        an * cd >= cn * ad,
{
    assert(an * bd * cd >= bn * ad * cd) by (nonlinear_arith)
        requires
            an * bd >= bn * ad,
    ;
    assert(bn * cd * ad >= cn * bd * ad) by (nonlinear_arith)
        requires
            bn * cd >= cn * bd,
    ;
    assert(bn * ad * cd == bn * cd * ad) by (nonlinear_arith);
    assert(an * bd * cd == an * cd * bd) by (nonlinear_arith);
    assert(cn * bd * ad == cn * ad * bd) by (nonlinear_arith);
    assert(an * cd >= cn * ad) by (nonlinear_arith)
        requires
            an * cd * bd >= cn * ad * bd,
            bd > 0,
    ;
}

proof fn lemma_pow10_positive(k: nat)
    ensures
        pow10(k) >= 1,
    decreases k,
{
    if k > 0 {
        lemma_pow10_positive((k - 1) as nat);
    }
}

proof fn lemma_level_size_take(s: Seq<TableReader>, i: int)
    requires
        0 <= i <= s.len(),
    ensures
        level_size(s.take(i)) <= level_size(s),
    decreases s.len() - i,
{
    if i < s.len() {
        lemma_level_size_take(s, i + 1);
        assert(s.take(i + 1).drop_last() =~= s.take(i));
    } else {
        assert(s.take(i) =~= s);
    }
}

/// The bytes of the files of a level.
fn level_total(readers: &Vec<TableReader>) -> (total: u64)
    requires
        level_size(readers@) <= u64::MAX,
    ensures
        total == level_size(readers@),
{
    let mut total: u64 = 0;
    let mut i: usize = 0;
    proof {
        assert(readers@.take(0) =~= Seq::<TableReader>::empty());
    }
    while i < readers.len()
        invariant
            i <= readers@.len(),
            total == level_size(readers@.take(i as int)),
            level_size(readers@) <= u64::MAX,
        decreases readers@.len() - i,
    {
        proof {
            lemma_level_size_take(readers@, i + 1);
            assert(readers@.take(i + 1).drop_last() =~= readers@.take(i as int));
            assert(readers@.take(i + 1).last() == readers@[i as int]);
        }
        total = total + readers[i].size() as u64;
        i += 1;
    }
    proof {
        assert(readers@.take(readers@.len() as int) =~= readers@);
    }
    total
}

/// The bytes that a level from 1 on may hold before it asks for
/// compaction; `None` where they are beyond 64 bits.
fn max_bytes_for_level(level: usize) -> (r: Option<u64>)
    requires
        level >= 1,
    ensures
        match r {
            Some(v) => v == max_bytes_spec(level as int),
            None => max_bytes_spec(level as int) > u64::MAX,
        },
{
    let mut result: u64 = 10485760;
    let mut k: usize = 1;
    while k < level
        invariant
            1 <= k <= level,
            result == max_bytes_spec(k as int),
        decreases level - k,
    {
        if result > u64::MAX / 10 {
            proof {
                lemma_max_bytes_grows(k as int + 1, level as int);
            }
            return None;
        }
        result = result * 10;
        k += 1;
    }
    Some(result)
}

proof fn lemma_max_bytes_grows(a: int, b: int)
    requires
        1 <= a <= b,
    ensures
        max_bytes_spec(a) <= max_bytes_spec(b),
    decreases b - a,
{
    if a < b {
        lemma_max_bytes_grows(a, b - 1);
        lemma_pow10_positive((b - 2) as nat);
    }
}

/// The step of `compute_compaction_levels`: a list of scores in order
/// stays in order when the score of a level with a higher number goes
/// behind the last score that is not below it.
proof fn lemma_inserted(
    levels: Seq<Seq<TableReader>>,
    trigger: nat,
    before: Seq<LevelScore>,
    x: LevelScore,
    p: int,
)
    requires
        0 <= p <= before.len(),
        x.num == score_num(levels, x.level as int),
        x.den == score_den(trigger, x.level as int),
        x.den > 0,
        needs_compaction(levels, trigger, x.level as int),
        forall|k: int|
            0 <= k < before.len() ==> {
                &&& (#[trigger] before[k]).level < x.level
                &&& before[k].num == score_num(levels, before[k].level as int)
                &&& before[k].den == score_den(trigger, before[k].level as int)
                &&& before[k].den > 0
                &&& needs_compaction(levels, trigger, before[k].level as int)
            },
        forall|a: int, b: int|
            0 <= a < b < before.len() ==> comes_before(
                levels,
                trigger,
                (#[trigger] before[a]).level as int,
                (#[trigger] before[b]).level as int,
            ),
        forall|k: int|
            p <= k < before.len() ==> (#[trigger] before[k]).num * x.den < x.num * before[k].den,
        p > 0 ==> before[p - 1].num * x.den >= x.num * before[p - 1].den,
    ensures
        forall|k: int|
            0 <= k < before.insert(p, x).len() ==> {
                &&& (#[trigger] before.insert(p, x)[k]).level < x.level + 1
                &&& before.insert(p, x)[k].num == score_num(
                    levels,
                    before.insert(p, x)[k].level as int,
                )
                &&& before.insert(p, x)[k].den == score_den(
                    trigger,
                    before.insert(p, x)[k].level as int,
                )
                &&& before.insert(p, x)[k].den > 0
                &&& needs_compaction(levels, trigger, before.insert(p, x)[k].level as int)
            },
        forall|a: int, b: int|
            0 <= a < b < before.insert(p, x).len() ==> comes_before(
                levels,
                trigger,
                (#[trigger] before.insert(p, x)[a]).level as int,
                (#[trigger] before.insert(p, x)[b]).level as int,
            ),
{
    let t = before.insert(p, x);
    assert forall|k: int| 0 <= k < t.len() implies {
        &&& (#[trigger] t[k]).level < x.level + 1
        &&& t[k].num == score_num(levels, t[k].level as int)
        &&& t[k].den == score_den(trigger, t[k].level as int)
        &&& t[k].den > 0
        &&& needs_compaction(levels, trigger, t[k].level as int)
    } by {
        if k < p {
            assert(t[k] == before[k]);
        } else if k > p {
            assert(t[k] == before[k - 1]);
        }
    }
    assert forall|a: int, b: int| 0 <= a < b < t.len() implies comes_before(
        levels,
        trigger,
        (#[trigger] t[a]).level as int,
        (#[trigger] t[b]).level as int,
    ) by {
        if b < p {
            assert(t[a] == before[a] && t[b] == before[b]);
        } else if b == p {
            assert(t[a] == before[a]);
            // before[a] is not below before[p - 1], which is not below x.
            if a < p - 1 {
                assert(comes_before(
                    levels,
                    trigger,
                    before[a].level as int,
                    before[p - 1].level as int,
                ));
                lemma_fraction_order(
                    before[a].num as nat,
                    before[a].den as nat,
                    before[p - 1].num as nat,
                    before[p - 1].den as nat,
                    x.num as nat,
                    x.den as nat,
                );
            }
        } else if a < p {
            assert(t[a] == before[a] && t[b] == before[b - 1]);
        } else if a == p {
            assert(t[b] == before[b - 1]);
        } else {
            assert(t[a] == before[a - 1] && t[b] == before[b - 1]);
        }
    }
}

impl SstableReader {
    /// The tables, level by level.
    pub closed spec fn levels(&self) -> Seq<Seq<TableReader>> {
        Seq::new(self.readers_@.len(), |l: int| self.readers_@[l]@)
    }

    /// The options that the catalog was made with.
    pub closed spec fn options(&self) -> Options {
        self.opt_
    }

    /// The manifest.
    pub closed spec fn manifest(&self) -> ManifestBuilder {
        self.manifest_builder_
    }

    /// The catalog's invariant: there are as many levels as the options
    /// say, and every level but level 0 is sorted by first key.
    pub open spec fn wf(&self) -> bool {
        &&& self.levels().len() == self.options().max_level
        &&& forall|l: int|
            1 <= l < self.levels().len() ==> sorted_by_min(#[trigger] self.levels()[l])
    }

    /// Every table of the catalog is well formed.
    pub open spec fn tables_wf(&self) -> bool {
        forall|l: int, i: int|
            0 <= l < self.levels().len() && 0 <= i < self.levels()[l].len()
                ==> (#[trigger] self.levels()[l][i]).wf()
    }

    /// A catalog of the tables that the manifest lists; `files` holds the
    /// name and the bytes of each table file that is there. Each level
    /// of the catalog has the tables of its level of the manifest, level
    /// 0 in the manifest's order. The catalog is made where every table
    /// listed opens; an error says that one does not.
    pub fn new(opt: Options, manifest_builder: ManifestBuilder, files: &Vec<(String, Vec<u8>)>) -> (r:
        MyResult<SstableReader>)
        ensures
            r matches Ok(c) ==> c.wf() && c.options() == opt && c.manifest() == manifest_builder,
            r matches Ok(c) ==> forall|l: int|
                0 <= l < c.levels().len() ==> (#[trigger] c.levels()[l]).len() == (if l
                    < manifest_builder@.len() {
                    manifest_builder@[l].len()
                } else {
                    0
                }),
            r matches Ok(c) ==> (0 < c.levels().len() && 0 < manifest_builder@.len() ==> forall|
                i: int,
            |
                0 <= i < c.levels()[0].len() ==> (#[trigger] c.levels()[0][i]).file_name_@
                    == manifest_builder@[0][i]),
            r matches Ok(c) ==> forall|l: int|
                0 <= l < c.levels().len() ==> level_loaded(
                    #[trigger] c.levels()[l],
                    l,
                    manifest_builder@,
                    files@,
                ),
            all_open(manifest_builder@, opt.max_level as int, files@) ==> (r matches Ok(c)
                && c.tables_wf()),
            r is Err ==> !all_open(manifest_builder@, opt.max_level as int, files@),
    {
        let mut r = SstableReader { opt_: opt, readers_: Vec::new(), manifest_builder_: manifest_builder };
        match r.load(files) {
            Ok(()) => Ok(r),
            Err(s) => Err(s),
        }
    }

    /// Opens the table that a file meta names.
    fn load_reader(&self, file_meta: &FileMeta, data: Vec<u8>) -> (r: MyResult<TableReader>)
        ensures
            match r {
                Ok(t) => t.inv() && t.file@ == data@ && t.file_name_@ == file_meta.file_name@ && (
                crate::sstable::table_format::table_wf(data@) ==> t.wf()),
                Err(_) => !crate::sstable::table_format::table_wf(data@),
            },
    {
        TableReader::new(file_meta.file_name.as_str(), data, self.opt_.get_table_opt())
    }

    /// Opens the tables that the manifest lists, level by level, and
    /// sorts every level but level 0 by first key. `files` holds the name
    /// and the bytes of each table file that is there. `InvalidData`
    /// where a file of the manifest is missing; else the error of opening
    /// a table. The tables are loaded where every table listed opens; an
    /// error says that one does not.
    pub fn load(&mut self, files: &Vec<(String, Vec<u8>)>) -> (r: MyResult<()>)
        ensures
            final(self).options() == old(self).options(),
            final(self).manifest() == old(self).manifest(),
            all_open(old(self).manifest()@, old(self).options().max_level as int, files@) ==> r
                is Ok && final(self).tables_wf(),
            r is Err ==> !all_open(
                old(self).manifest()@,
                old(self).options().max_level as int,
                files@,
            ),
            r is Ok ==> forall|l: int|
                0 <= l < final(self).levels().len() ==> level_loaded(
                    #[trigger] final(self).levels()[l],
                    l,
                    old(self).manifest()@,
                    files@,
                ),
            r is Ok ==> final(self).wf(),
            r is Ok ==> forall|l: int|
                0 <= l < final(self).levels().len() ==> (#[trigger] final(self).levels()[l]).len()
                    == (if l < old(self).manifest()@.len() {
                    old(self).manifest()@[l].len()
                } else {
                    0
                }),
            r is Ok && 0 < final(self).levels().len() && 0 < old(self).manifest()@.len()
                ==> forall|i: int|
                0 <= i < final(self).levels()[0].len() ==> (
                #[trigger] final(self).levels()[0][i]).file_name_@ == old(self).manifest()@[0][i],
            r is Ok && (forall|f: int|
                0 <= f < files@.len() ==> crate::sstable::table_format::table_wf(
                    (#[trigger] files@[f]).1@,
                )) ==> final(self).tables_wf(),
    {
        self.readers_ = Vec::new();
        let max = self.opt_.max_level;
        let ghost names = self.manifest_builder_@;
        let ghost files_ok = all_open(names, max as int, files@) || forall|f: int|
            0 <= f < files@.len() ==> crate::sstable::table_format::table_wf(
                (#[trigger] files@[f]).1@,
            );
        let mut i: usize = 0;
        while i < max
            invariant
                i <= max,
                max == self.opt_.max_level,
                self.opt_ == old(self).opt_,
                self.manifest_builder_ == old(self).manifest_builder_,
                self.readers_@.len() == i,
                forall|l: int| 1 <= l < i ==> sorted_by_min(#[trigger] self.readers_@[l]@),
                forall|l: int|
                    0 <= l < i ==> (#[trigger] self.readers_@[l])@.len() == (if l
                        < self.manifest_builder_@.len() {
                        self.manifest_builder_@[l].len()
                    } else {
                        0
                    }),
                files_ok ==> forall|l: int| 0 <= l < i ==> all_wf(#[trigger] self.readers_@[l]@),
                0 < i && 0 < self.manifest_builder_@.len() ==> forall|k: int|
                    0 <= k < self.readers_@[0]@.len() ==> (#[trigger] self.readers_@[0]@[k]).file_name_@
                        == self.manifest_builder_@[0][k],
                names == self.manifest_builder_@,
                forall|l: int|
                    0 <= l < i ==> level_loaded((#[trigger] self.readers_@[l])@, l, names, files@),
                files_ok == (all_open(names, max as int, files@) || forall|f: int|
                    0 <= f < files@.len() ==> crate::sstable::table_format::table_wf(
                        (#[trigger] files@[f]).1@,
                    )),
            decreases max - i,
        {
            let mut readers: Vec<TableReader> = Vec::new();
            match self.manifest_builder_.file_metas(i) {
                Some(fms) => {
                    let mut j: usize = 0;
                    while j < fms.len()
                        invariant
                            j <= fms@.len(),
                            readers@.len() == j,
                            self.opt_ == old(self).opt_,
                            self.manifest_builder_ == old(self).manifest_builder_,
                            forall|k: int|
                                0 <= k < j ==> (#[trigger] readers@[k]).file_name_@
                                    == fms@[k].file_name@,
                            forall|k: int|
                                0 <= k < j ==> from_first(
                                    files@,
                                    names[i as int][k],
                                    #[trigger] readers@[k],
                                ),
                            files_ok ==> all_wf(readers@),
                            i < max,
                            max == self.opt_.max_level,
                            i < names.len(),
                            names == self.manifest_builder_@,
                            names[i as int] == crate::manifest::names_of(fms@),
                            files_ok == (all_open(names, max as int, files@) || forall|f: int|
                                0 <= f < files@.len()
                                    ==> crate::sstable::table_format::table_wf(
                                    (#[trigger] files@[f]).1@,
                                )),
                        decreases fms@.len() - j,
                    {
                        let fm = &fms[j];
                        let ghost name = names[i as int][j as int];
                        proof {
                            assert(crate::manifest::names_of(fms@)[j as int] == fm.file_name@);
                        }
                        let idx = match find_file(files, &fm.file_name) {
                            Some(x) => x,
                            None => {
                                proof {
                                    assert(!opens(files@, name));
                                }
                                return Err(
                                    Status::new(StatusCode::InvalidData, "missing table file"),
                                );
                            },
                        };
                        let bytes = &files[idx].1;
                        let data = copy_range(bytes.as_slice(), 0, bytes.len());
                        assert(data@ =~= files@[idx as int].1@);
                        proof {
                            if opens(files@, name) {
                                let w = choose|w: int| #[trigger]
                                    first_named(files@, name, w)
                                        && crate::sstable::table_format::table_wf(files@[w].1@);
                                assert(w == idx);
                            }
                        }
                        let reader = match self.load_reader(fm, data) {
                            Ok(t) => t,
                            Err(s) => {
                                proof {
                                    assert(!opens(files@, name));
                                }
                                return Err(s);
                            },
                        };
                        let ghost readers_before = readers@;
                        readers.push(reader);
                        proof {
                            assert(first_named(files@, name, idx as int));
                            assert forall|k: int| 0 <= k < j + 1 implies from_first(
                                files@,
                                names[i as int][k],
                                #[trigger] readers@[k],
                            ) by {
                                if k < j {
                                    assert(readers@[k] == readers_before[k]);
                                }
                            }
                        }
                        j += 1;
                    }
                    let ghost pre = readers@;
                    proof {
                        assert(opened_from(pre, listed(names, i as int), files@)) by {
                            assert forall|k: int| 0 <= k < pre.len() implies (
                            #[trigger] pre[k]).file_name_@ == names[i as int][k] by {
                                assert(crate::manifest::names_of(fms@)[k] == fms@[k].file_name@);
                            }
                        }
                    }
                    if i != 0 {
                        proof {
                            if files_ok {
                                lemma_sort_all_wf(readers@);
                            }
                        }
                        sort_readers(&mut readers);
                    }
                    proof {
                        assert(level_loaded(readers@, i as int, names, files@));
                    }
                },
                None => {
                    proof {
                        let pre = Seq::<TableReader>::empty();
                        assert(opened_from(pre, listed(names, i as int), files@));
                        assert(sort_by_min(pre) =~= pre);
                        assert(readers@ =~= pre);
                        assert(level_loaded(readers@, i as int, names, files@));
                    }
                },
            }
            proof {
                if i == 0 && 0 < self.manifest_builder_@.len() {
                    assert forall|k: int| 0 <= k < readers@.len() implies (
                    #[trigger] readers@[k]).file_name_@ == self.manifest_builder_@[0][k] by {
                        let fms = self.manifest_builder_.file_metas_spec(0);
                        assert(crate::manifest::names_of(fms)[k] == fms[k].file_name@);
                    }
                }
            }
            self.readers_.push(readers);
            i += 1;
        }
        proof {
            assert forall|l: int| 1 <= l < self.levels().len() implies sorted_by_min(
                #[trigger] self.levels()[l],
            ) by {
                assert(sorted_by_min(self.readers_@[l]@));
            }
            if files_ok {
                assert forall|l: int, k: int|
                    0 <= l < self.levels().len() && 0 <= k < self.levels()[l].len() implies (
                #[trigger] self.levels()[l][k]).wf() by {
                    assert(all_wf(self.readers_@[l]@));
                }
            }
            assert forall|l: int| 0 <= l < self.levels().len() implies level_loaded(
                #[trigger] self.levels()[l],
                l,
                old(self).manifest()@,
                files@,
            ) by {
                assert(level_loaded(self.readers_@[l]@, l, names, files@));
            }
            assert forall|l: int| 0 <= l < self.levels().len() implies (
            #[trigger] self.levels()[l]).len() == (if l < old(self).manifest()@.len() {
                old(self).manifest()@[l].len()
            } else {
                0
            }) by {
                assert(self.readers_@[l]@.len() == (if l < self.manifest_builder_@.len() {
                    self.manifest_builder_@[l].len()
                } else {
                    0
                }));
            }
        }
        Ok(())
    }

    /// Adds a table to a level; see `add_readers`.
    pub fn add(&mut self, level: usize, reader: TableReader) -> (r: MyResult<()>)
        requires
            old(self).wf(),
            level < old(self).levels().len(),
        ensures
            r is Ok,
            final(self).wf(),
            final(self).options() == old(self).options(),
            final(self).levels() == old(self).levels().update(
                level as int,
                add_all(old(self).levels()[level as int], seq![reader], level != 0),
            ),
            final(self).manifest()@.len() == old(self).manifest()@.len(),
            level < old(self).manifest()@.len() ==> final(self).manifest()@ == old(self).manifest()@.update(
                level as int,
                add_names(old(self).manifest()@[level as int], seq![reader]),
            ) && final(self).manifest().dirty(),
            old(self).tables_wf() && reader.wf() ==> final(self).tables_wf(),
    {
        let mut readers: Vec<TableReader> = Vec::new();
        readers.push(reader);
        assert(readers@ =~= seq![reader]);
        self.add_readers(level, readers)
    }

    /// Adds tables to a level, one by one: each is recorded in the
    /// manifest and appended to the level, and every level but level 0 is
    /// sorted by first key after each. The manifest is then due for
    /// writing.
    pub fn add_readers(&mut self, level: usize, readers: Vec<TableReader>) -> (r: MyResult<()>)
        requires
            old(self).wf(),
            level < old(self).levels().len(),
        ensures
            r is Ok,
            final(self).wf(),
            final(self).options() == old(self).options(),
            final(self).levels() == old(self).levels().update(
                level as int,
                add_all(old(self).levels()[level as int], readers@, level != 0),
            ),
            final(self).manifest()@.len() == old(self).manifest()@.len(),
            level < old(self).manifest()@.len() ==> final(self).manifest()@ == old(self).manifest()@.update(
                level as int,
                add_names(old(self).manifest()@[level as int], readers@),
            ) && (readers@.len() > 0 ==> final(self).manifest().dirty()),
            old(self).tables_wf() && all_wf(readers@) ==> final(self).tables_wf(),
    {
        let ghost xs = readers@;
        let ghost lv0 = self.levels()[level as int];
        let ghost names0 = self.manifest_builder_@;
        let ghost good = self.tables_wf() && all_wf(readers@);
        let mut readers = readers;
        let mut lv = self.readers_.remove(level);
        assert(lv@ == lv0);
        let ghost others = self.readers_@;
        let ghost mut k: int = 0;
        proof {
            assert(xs.skip(0) =~= xs);
            if good {
                assert forall|i: int| 0 <= i < lv@.len() implies (#[trigger] lv@[i]).wf() by {
                    assert(old(self).levels()[level as int][i].wf());
                }
            }
        }
        while readers.len() > 0
            invariant
                0 <= k <= xs.len(),
                readers@ == xs.skip(k),
                self.readers_@ == others,
                self.opt_ == old(self).opt_,
                add_all(lv0, xs, level != 0) == add_all(lv@, xs.skip(k), level != 0),
                level != 0 ==> sorted_by_min(lv@),
                self.manifest_builder_@.len() == names0.len(),
                level < names0.len() ==> add_names(names0[level as int], xs) == add_names(
                    self.manifest_builder_@[level as int],
                    xs.skip(k),
                ) && forall|l: int|
                    0 <= l < names0.len() && l != level ==> #[trigger] self.manifest_builder_@[l]
                        == names0[l],
                level < names0.len() && k > 0 ==> self.manifest_builder_.dirty(),
                level >= names0.len() ==> self.manifest_builder_@ == names0,
                good ==> all_wf(lv@) && all_wf(xs),
            decreases readers@.len(),
        {
            let reader = readers.remove(0);
            proof {
                assert(reader == xs[k]);
                assert(xs.skip(k).skip(1) =~= xs.skip(k + 1));
                assert(readers@ =~= xs.skip(k + 1));
            }
            self.manifest_builder_.add_file_meta(level, table_reader_to_file_meta(&reader));
            let ghost before = lv@;
            lv.push(reader);
            proof {
                if good {
                    assert forall|i: int| 0 <= i < lv@.len() implies (#[trigger] lv@[i]).wf() by {
                        if i < before.len() {
                            assert(lv@[i] == before[i]);
                        } else {
                            assert(lv@[i] == xs[k]);
                        }
                    }
                }
            }
            if level != 0 {
                proof {
                    if good {
                        lemma_sort_all_wf(lv@);
                    }
                }
                sort_readers(&mut lv);
            }
            proof {
                k = k + 1;
            }
        }
        self.readers_.insert(level, lv);
        proof {
            let want = old(self).levels().update(level as int, add_all(lv0, xs, level != 0));
            assert forall|l: int| 0 <= l < self.levels().len() implies self.levels()[l]
                == want[l] by {
                if l < level {
                    assert(self.readers_@[l] == old(self).readers_@[l]);
                } else if l > level {
                    assert(self.readers_@[l] == old(self).readers_@[l]);
                }
            }
            assert(self.levels() =~= want);
            assert forall|l: int| 1 <= l < self.levels().len() implies sorted_by_min(
                #[trigger] self.levels()[l],
            ) by {
                if l != level {
                    assert(self.levels()[l] == old(self).levels()[l]);
                }
            }
            if level < names0.len() {
                assert(self.manifest_builder_@ =~= names0.update(
                    level as int,
                    add_names(names0[level as int], xs),
                ));
            }
            if good {
                assert forall|l: int, i: int|
                    0 <= l < self.levels().len() && 0 <= i < self.levels()[l].len() implies (
                #[trigger] self.levels()[l][i]).wf() by {
                    if l != level {
                        assert(self.levels()[l] == old(self).levels()[l]);
                        assert(old(self).levels()[l][i].wf());
                    }
                }
            }
        }
        Ok(())
    }

    /// Removes from a level the tables with one of the given file names,
    /// and their names from the manifest. The manifest is then due for
    /// writing, and the files can be deleted once it is written.
    pub fn remove_by_file_names(&mut self, level: usize, file_names: &Vec<String>) -> (r: MyResult<
        (),
    >)
        requires
            old(self).wf(),
            level < old(self).levels().len(),
        ensures
            r is Ok,
            final(self).wf(),
            final(self).options() == old(self).options(),
            final(self).levels() == old(self).levels().update(
                level as int,
                readers_without(old(self).levels()[level as int], file_names@),
            ),
            final(self).manifest()@.len() == old(self).manifest()@.len(),
            level < old(self).manifest()@.len() ==> final(self).manifest()@ == old(self).manifest()@.update(
                level as int,
                names_without(old(self).manifest()@[level as int], file_names@),
            ) && final(self).manifest().dirty(),
            old(self).tables_wf() ==> final(self).tables_wf(),
    {
        let ghost lv0 = self.levels()[level as int];
        let ghost good = self.tables_wf();
        self.manifest_builder_.remove_file_meta_by_file_names(level, file_names);
        let mut lv = self.readers_.remove(level);
        let mut kept: Vec<TableReader> = Vec::new();
        let ghost mut done: int = 0;
        proof {
            assert(lv0.take(0) =~= Seq::<TableReader>::empty());
            assert(lv0.skip(0) =~= lv0);
        }
        while lv.len() > 0
            invariant
                0 <= done <= lv0.len(),
                lv@ == lv0.skip(done),
                kept@ == readers_without(lv0.take(done), file_names@),
            decreases lv@.len(),
        {
            let reader = lv.remove(0);
            let listed = name_in(file_names, reader.file_name());
            proof {
                assert(reader == lv0[done]);
                assert(lv0.take(done + 1).drop_last() =~= lv0.take(done));
                assert(lv0.take(done + 1).last() == reader);
                assert(lv@ =~= lv0.skip(done + 1));
                done = done + 1;
            }
            if !listed {
                kept.push(reader);
            }
        }
        proof {
            assert(lv0.take(done) =~= lv0);
            lemma_remove_keeps_disjoint(lv0, file_names@);
            if good {
                assert forall|i: int| 0 <= i < lv0.len() implies (#[trigger] lv0[i]).wf() by {
                    assert(old(self).levels()[level as int][i].wf());
                }
                lemma_without_all_wf(lv0, file_names@);
            }
        }
        self.readers_.insert(level, kept);
        proof {
            let want = old(self).levels().update(
                level as int,
                readers_without(lv0, file_names@),
            );
            assert forall|l: int| 0 <= l < self.levels().len() implies self.levels()[l]
                == want[l] by {
                if l < level {
                    assert(self.readers_@[l] == old(self).readers_@[l]);
                } else if l > level {
                    assert(self.readers_@[l] == old(self).readers_@[l]);
                }
            }
            assert(self.levels() =~= want);
            assert forall|l: int| 1 <= l < self.levels().len() implies sorted_by_min(
                #[trigger] self.levels()[l],
            ) by {
                if l != level {
                    assert(self.levels()[l] == old(self).levels()[l]);
                }
            }
            if good {
                assert forall|l: int, i: int|
                    0 <= l < self.levels().len() && 0 <= i < self.levels()[l].len() implies (
                #[trigger] self.levels()[l][i]).wf() by {
                    if l != level {
                        assert(self.levels()[l] == old(self).levels()[l]);
                        assert(old(self).levels()[l][i].wf());
                    } else {
                        assert(all_wf(readers_without(lv0, file_names@)));
                    }
                }
            }
        }
        Ok(())
    }

    /// The manifest, for changing it.
    pub fn manifest_builder_mut(&mut self) -> (m: &mut ManifestBuilder)
        ensures
            *m == old(self).manifest(),
            final(self).manifest() == *final(m),
            final(self).levels() == old(self).levels(),
            final(self).options() == old(self).options(),
    {
        &mut self.manifest_builder_
    }

    /// The tables of a level.
    pub fn get_readers(&self, level: usize) -> (r: &Vec<TableReader>)
        requires
            level < self.levels().len(),
        ensures
            r@ == self.levels()[level as int],
    {
        &self.readers_[level]
    }

    /// The number of levels.
    pub fn level_count(&self) -> (n: usize)
        ensures
            n == self.levels().len(),
    {
        self.readers_.len()
    }

    /// The options of the catalog's tables.
    pub fn table_opt(&self) -> (t: crate::sstable::options::Options)
        ensures
            t == self.options().table_opt(),
    {
        self.opt_.get_table_opt()
    }

    /// The tables of a level that may hold `key`, in the order in which a
    /// lookup asks them. In level 0 these are the tables whose range holds
    /// the key, the one added last first. In every other level the search
    /// starts at the last table that starts below the key, takes each
    /// table whose range holds the key, and ends at the first that starts
    /// above it.
    pub fn search_readers(&self, level: usize, key: &[u8]) -> (res: Vec<&TableReader>)
        requires
            self.wf(),
        ensures
            level >= self.levels().len() ==> res@.len() == 0,
            level < self.levels().len() ==> res@.len() == candidates(
                self.levels()[level as int],
                level as int,
                key@,
            ).len() && forall|k: int|
                0 <= k < res@.len() ==> *(#[trigger] res@[k]) == self.levels()[level as int][candidates(
                    self.levels()[level as int],
                    level as int,
                    key@,
                )[k]],
    {
        let mut res: Vec<&TableReader> = Vec::new();
        if self.readers_.len() <= level {
            return res;
        }
        let readers = self.get_readers(level);
        let ghost s = readers@;
        let n = readers.len();
        if level == 0 {
            let mut i: usize = n;
            let ghost mut got: Seq<int> = Seq::empty();
            proof {
                assert(s.take(n as int) =~= s);
                assert(got + candidates_l0(s, key@) =~= candidates_l0(s, key@));
            }
            while i > 0
                invariant
                    i <= n,
                    n == s.len(),
                    readers@ == s,
                    candidates_l0(s, key@) == got + candidates_l0(s.take(i as int), key@),
                    res@.len() == got.len(),
                    forall|k: int|
                        0 <= k < got.len() ==> 0 <= #[trigger] got[k] < s.len() && *res@[k]
                            == s[got[k]],
                decreases i,
            {
                let reader = &readers[i - 1];
                proof {
                    assert(s.take(i as int).last() == s[i - 1]);
                    assert(s.take(i as int).drop_last() =~= s.take(i - 1));
                }
                if bytes_le(reader.min_key().as_slice(), key) && bytes_le(
                    key,
                    reader.max_key().as_slice(),
                ) {
                    res.push(reader);
                    proof {
                        let rest = candidates_l0(s.take(i - 1), key@);
                        assert(got + (seq![i - 1] + rest) =~= got.push(i - 1) + rest);
                        got = got.push(i - 1);
                    }
                }
                i -= 1;
            }
            proof {
                assert(s.take(n as int) =~= s);
                assert(candidates_l0(s.take(0), key@) =~= Seq::<int>::empty());
                assert(got + Seq::<int>::empty() =~= got);
            }
        } else if n > 0 {
            let mut left: usize = 0;
            let mut right: usize = n - 1;
            while left < right
                invariant
                    0 <= left <= right < n,
                    n == s.len(),
                    readers@ == s,
                    sorted_by_min(s),
                    left == 0 || lex_lt(s[left as int].min_key_@, key@),
                    forall|r: int| right < r < n ==> !lex_lt((#[trigger] s[r]).min_key_@, key@),
                decreases right - left,
            {
                let middle = left + (right - left + 1) / 2;
                if bytes_lt(readers[middle].min_key().as_slice(), key) {
                    left = middle;
                } else {
                    proof {
                        assert forall|r: int| middle - 1 < r < n implies !lex_lt(
                            (#[trigger] s[r]).min_key_@,
                            key@,
                        ) by {
                            if r > middle {
                                assert(lex_le(s[middle as int].min_key_@, s[r].min_key_@));
                            }
                            if lex_lt(s[r].min_key_@, key@) {
                                lemma_lex_le_lt(s[middle as int].min_key_@, s[r].min_key_@, key@);
                            }
                        }
                    }
                    right = middle - 1;
                }
            }
            proof {
                lemma_search_start(s, key@, left as int);
            }
            let mut i: usize = left;
            let ghost mut got: Seq<int> = Seq::empty();
            proof {
                assert(got + candidates_from(s, left as int, key@) =~= candidates_from(
                    s,
                    left as int,
                    key@,
                ));
            }
            while i < n
                invariant
                    left <= i <= n,
                    n == s.len(),
                    readers@ == s,
                    level != 0,
                    level < self.levels().len(),
                    s == self.levels()[level as int],
                    left == search_start(s, key@),
                    candidates_from(s, left as int, key@) == got + candidates_from(
                        s,
                        i as int,
                        key@,
                    ),
                    res@.len() == got.len(),
                    forall|k: int|
                        0 <= k < got.len() ==> 0 <= #[trigger] got[k] < s.len() && *res@[k]
                            == s[got[k]],
                decreases n - i,
            {
                let reader = &readers[i];
                if bytes_le(reader.min_key().as_slice(), key) && bytes_le(
                    key,
                    reader.max_key().as_slice(),
                ) {
                    res.push(reader);
                    proof {
                        let rest = candidates_from(s, i + 1, key@);
                        assert(got + (seq![i as int] + rest) =~= got.push(i as int) + rest);
                        got = got.push(i as int);
                    }
                } else if bytes_lt(key, reader.min_key().as_slice()) {
                    proof {
                        assert(got + Seq::<int>::empty() =~= got);
                    }
                    return res;
                }
                i += 1;
            }
            proof {
                assert(got + Seq::<int>::empty() =~= got);
            }
        } else {
            proof {
                assert(candidates_from(s, search_start(s, key@), key@) =~= Seq::<int>::empty());
            }
        }
        res
    }

    /// The levels that ask for compaction, the most pressing first. The
    /// score of level 0 is the number of its tables over the compaction
    /// trigger; the score of every other level is the bytes of its tables
    /// over the bytes that it may hold. A level is listed where its score
    /// is at least one; levels with higher scores come first, and levels
    /// with the same score in the order of their numbers.
    pub fn compute_compaction_levels(&self) -> (res: Vec<usize>)
        requires
            self.wf(),
            self.options().l0_compaction_trigger > 0,
            forall|l: int|
                1 <= l < self.levels().len() ==> level_size(#[trigger] self.levels()[l])
                    <= u64::MAX,
        ensures
            forall|k: int|
                0 <= k < res@.len() ==> (#[trigger] res@[k]) < self.levels().len()
                    && needs_compaction(
                    self.levels(),
                    self.options().l0_compaction_trigger as nat,
                    res@[k] as int,
                ),
            forall|l: int|
                0 <= l < self.levels().len() && needs_compaction(
                    self.levels(),
                    self.options().l0_compaction_trigger as nat,
                    l,
                ) ==> exists|k: int| 0 <= k < res@.len() && #[trigger] res@[k] == l,
            forall|a: int, b: int|
                0 <= a < b < res@.len() ==> comes_before(
                    self.levels(),
                    self.options().l0_compaction_trigger as nat,
                    (#[trigger] res@[a]) as int,
                    (#[trigger] res@[b]) as int,
                ),
    {
        let ghost levels = self.levels();
        let ghost trigger = self.opt_.l0_compaction_trigger as nat;
        let n = self.readers_.len();
        let mut scores: Vec<LevelScore> = Vec::new();
        let mut i: usize = 0;
        while i < n
            invariant
                i <= n,
                n == levels.len(),
                levels == self.levels(),
                trigger == self.opt_.l0_compaction_trigger,
                trigger > 0,
                forall|l: int| 1 <= l < levels.len() ==> level_size(#[trigger] levels[l]) <= u64::MAX,
                forall|k: int|
                    0 <= k < scores@.len() ==> {
                        &&& (#[trigger] scores@[k]).level < i
                        &&& scores@[k].num == score_num(levels, scores@[k].level as int)
                        &&& scores@[k].den == score_den(trigger, scores@[k].level as int)
                        &&& scores@[k].den > 0
                        &&& needs_compaction(levels, trigger, scores@[k].level as int)
                    },
                forall|l: int|
                    0 <= l < i && needs_compaction(levels, trigger, l) ==> exists|k: int|
                        0 <= k < scores@.len() && (#[trigger] scores@[k]).level == l,
                forall|a: int, b: int|
                    0 <= a < b < scores@.len() ==> comes_before(
                        levels,
                        trigger,
                        (#[trigger] scores@[a]).level as int,
                        (#[trigger] scores@[b]).level as int,
                    ),
            decreases n - i,
        {
            let readers = self.get_readers(i);
            let num: u64 = if i == 0 {
                readers.len() as u64
            } else {
                level_total(readers)
            };
            let den: Option<u64> = if i == 0 {
                Some(self.opt_.l0_compaction_trigger as u64)
            } else {
                max_bytes_for_level(i)
            };
            proof {
                if i > 0 {
                    lemma_pow10_positive((i - 1) as nat);
                }
            }
            let ghost before = scores@;
            match den {
                Some(d) => {
                    if num >= d {
                        let x = LevelScore { level: i, num, den: d };
                        let mut p: usize = scores.len();
                        while p > 0 && score_below(&scores[p - 1], &x)
                            invariant
                                p <= scores@.len(),
                                scores@ == before,
                                forall|k: int|
                                    p <= k < scores@.len() ==> (#[trigger] scores@[k]).num * x.den
                                        < x.num * scores@[k].den,
                            decreases p,
                        {
                            p -= 1;
                        }
                        scores.insert(p, x);
                        proof {
                            lemma_inserted(levels, trigger, before, x, p as int);
                            assert forall|l: int|
                                0 <= l < i + 1 && needs_compaction(
                                    levels,
                                    trigger,
                                    l,
                                ) implies exists|k: int|
                                0 <= k < scores@.len() && (#[trigger] scores@[k]).level == l by {
                                if l < i {
                                    let k0 = choose|k: int|
                                        0 <= k < before.len() && (#[trigger] before[k]).level == l;
                                    if k0 < p {
                                        assert(scores@[k0] == before[k0]);
                                    } else {
                                        assert(scores@[k0 + 1] == before[k0]);
                                    }
                                } else {
                                    assert(scores@[p as int].level == l);
                                }
                            }
                        }
                    }
                },
                None => {},
            }
            i += 1;
        }
        let mut res: Vec<usize> = Vec::new();
        let mut k: usize = 0;
        while k < scores.len()
            invariant
                k <= scores@.len(),
                res@.len() == k,
                forall|a: int| 0 <= a < k ==> #[trigger] res@[a] == scores@[a].level,
            decreases scores@.len() - k,
        {
            res.push(scores[k].level);
            k += 1;
        }
        proof {
            assert forall|l: int|
                0 <= l < levels.len() && needs_compaction(levels, trigger, l) implies exists|k: int|
                0 <= k < res@.len() && #[trigger] res@[k] == l by {
                let k0 = choose|k: int| 0 <= k < scores@.len() && (#[trigger] scores@[k]).level == l;
                assert(res@[k0] == l);
            }
            assert forall|a: int, b: int| 0 <= a < b < res@.len() implies comes_before(
                levels,
                trigger,
                (#[trigger] res@[a]) as int,
                (#[trigger] res@[b]) as int,
            ) by {
                assert(comes_before(
                    levels,
                    trigger,
                    scores@[a].level as int,
                    scores@[b].level as int,
                ));
            }
        }
        res
    }

    /// The manifest.
    pub fn manifest_builder(&self) -> (m: &ManifestBuilder)
        ensures
            *m == self.manifest(),
    {
        &self.manifest_builder_
    }

    /// The value stored under `k`: that of the first table that holds the
    /// key, level by level, in each level in the order of
    /// `search_readers`. An error is that of reading a table; where all
    /// tables are well formed there is none.
    pub fn get(&self, k: &[u8]) -> (r: MyResult<Option<Vec<u8>>>)
        requires
            self.wf(),
        ensures
            self.tables_wf() ==> match r {
                Ok(Some(v)) => catalog_lookup(self.levels(), 0, k@) == Some(v@),
                Ok(None) => catalog_lookup(self.levels(), 0, k@).is_none(),
                Err(_) => false,
            },
    {
        let n = self.readers_.len();
        let mut i: usize = 0;
        while i < n
            invariant
                i <= n,
                n == self.levels().len(),
                self.wf(),
                self.tables_wf() ==> catalog_lookup(self.levels(), 0, k@) == catalog_lookup(
                    self.levels(),
                    i as int,
                    k@,
                ),
            decreases n - i,
        {
            let readers = self.search_readers(i, k);
            let ghost s = self.levels()[i as int];
            let ghost idxs = candidates(s, i as int, k@);
            proof {
                lemma_candidates_in_range(s, i as int, k@);
            }
            let mut j: usize = 0;
            while j < readers.len()
                invariant
                    j <= readers@.len(),
                    i < self.levels().len(),
                    s == self.levels()[i as int],
                    idxs == candidates(s, i as int, k@),
                    readers@.len() == idxs.len(),
                    forall|a: int| 0 <= a < readers@.len() ==> *(#[trigger] readers@[a]) == s[idxs[a]],
                    self.tables_wf() ==> first_found(s, idxs, 0, k@) == first_found(
                        s,
                        idxs,
                        j as int,
                        k@,
                    ),
                    forall|a: int| 0 <= a < idxs.len() ==> 0 <= #[trigger] idxs[a] < s.len(),
                    self.tables_wf() ==> catalog_lookup(self.levels(), 0, k@) == catalog_lookup(
                        self.levels(),
                        i as int,
                        k@,
                    ),
                decreases readers@.len() - j,
            {
                proof {
                    assert(*readers@[j as int] == s[idxs[j as int]]);
                    if self.tables_wf() {
                        assert(self.levels()[i as int][idxs[j as int]].wf());
                    }
                }
                let found = match readers[j].get(k) {
                    Ok(v) => v,
                    Err(e) => {
                        return Err(e);
                    },
                };
                if found.is_some() {
                    return Ok(found);
                }
                j += 1;
            }
            i += 1;
        }
        Ok(None)
    }
}

} // verus!
