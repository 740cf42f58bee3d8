//! Compaction: the tables of a level and of the level below it become
//! one table of the level below, which holds for every key what a lookup
//! found for it before.

use crate::sstable::block_format::{
    first_at_least, keys_ascend, lemma_first_at_least, lemma_first_at_least_is,
};
use crate::sstable::block_iter::{position_after_advance, Position};
use crate::sstable::table_format::{
    lemma_lookup_found, lemma_table_lookup, lookup, table_entries, Entries,
};
use crate::sstable::table_iter::TableIter;
use crate::sstable::table_reader::{first_key, last_key, TableReader};
use crate::manifest::name_listed;
use crate::sstable::result::{MyResult, Status, StatusCode};
use crate::sstable::options::CompressType;
use crate::sstable::table_builder::{lemma_weight_take, table_fits, TableBuilder};
use crate::sstable::table_format::table_wf;
use crate::sstable_reader::{
    add_all, all_wf, candidates, candidates_from, candidates_l0, catalog_lookup, disjoint,
    first_found, in_range, insert_pos, lemma_candidates_in_range, lemma_disjoint_one_candidate,
    readers_without, search_start, sort_by_min, SstableReader,
};
use crate::util::{
    bytes_lt, copy_range, lemma_lex_irreflexive, lemma_lex_total, lemma_lex_transitive, lex_le,
    lex_lt,
};
use vstd::prelude::*;

verus! {

/// The keys and values of a list of pairs of vectors.
pub open spec fn pairs_view(v: Seq<(Vec<u8>, Vec<u8>)>) -> Entries {
    Seq::new(v.len(), |i: int| (v[i].0@, v[i].1@))
}

/// The first of two values that is there.
pub open spec fn or_else(a: Option<Seq<u8>>, b: Option<Seq<u8>>) -> Option<Seq<u8>> {
    match a {
        Some(v) => Some(v),
        None => b,
    }
}

/// Two ascending runs as one: the entries of both in the order of their
/// keys; where both have a key, the entry of the first run stands for it.
pub open spec fn merged(a: Entries, b: Entries) -> Entries
    decreases a.len() + b.len(),
{
    if a.len() == 0 {
        b
    } else if b.len() == 0 {
        a
    } else if lex_lt(a[0].0, b[0].0) {
        seq![a[0]] + merged(a.skip(1), b)
    } else if lex_lt(b[0].0, a[0].0) {
        seq![b[0]] + merged(a, b.skip(1))
    } else {
        seq![a[0]] + merged(a.skip(1), b.skip(1))
    }
}

/// The entry is one of the run.
pub open spec fn is_in(kv: Entries, e: (Seq<u8>, Seq<u8>)) -> bool {
    exists|k: int| 0 <= k < kv.len() && #[trigger] kv[k] == e
}

/// A run without its first entry is ascending where the run is.
pub proof fn lemma_skip_ascend(kv: Entries)
    requires
        keys_ascend(kv),
        kv.len() > 0,
    ensures
        keys_ascend(kv.skip(1)),
        forall|i: int| 0 <= i < kv.skip(1).len() ==> lex_lt(kv[0].0, (#[trigger] kv.skip(1)[i]).0),
{
    let t = kv.skip(1);
    assert forall|i: int, j: int| 0 <= i < j < t.len() implies lex_lt(
        (#[trigger] t[i]).0,
        (#[trigger] t[j]).0,
    ) by {
        assert(t[i] == kv[i + 1] && t[j] == kv[j + 1]);
    }
    assert forall|i: int| 0 <= i < t.len() implies lex_lt(kv[0].0, (#[trigger] t[i]).0) by {
        assert(t[i] == kv[i + 1]);
    }
}

/// A run with an entry in front whose key is below all its keys is
/// ascending where the run is.
pub proof fn lemma_cons_ascend(x: (Seq<u8>, Seq<u8>), kv: Entries)
    requires
        keys_ascend(kv),
        forall|i: int| 0 <= i < kv.len() ==> lex_lt(x.0, (#[trigger] kv[i]).0),
    ensures
        keys_ascend(seq![x] + kv),
{
    let t = seq![x] + kv;
    assert forall|i: int, j: int| 0 <= i < j < t.len() implies lex_lt(
        (#[trigger] t[i]).0,
        (#[trigger] t[j]).0,
    ) by {
        assert(t[j] == kv[j - 1]);
        if i > 0 {
            assert(t[i] == kv[i - 1]);
        }
    }
}

/// Looking a key up in an ascending run, by its first entry: the entry
/// has the key, or the key is below it and not there, or the key is
/// looked up behind it.
pub proof fn lemma_lookup_step(kv: Entries, key: Seq<u8>)
    requires
        keys_ascend(kv),
        kv.len() > 0,
    ensures
        lookup(kv, key) == (if kv[0].0 == key {
            Some(kv[0].1)
        } else if lex_lt(key, kv[0].0) {
            None
        } else {
            lookup(kv.skip(1), key)
        }),
{
    lemma_lex_total(key, kv[0].0);
    lemma_first_at_least_is(kv, key);
    lemma_first_at_least_is(kv.skip(1), key);
    if !lex_le(key, kv[0].0) {
        let i = first_at_least(kv.skip(1), key);
        if i < kv.skip(1).len() {
            assert(kv.skip(1)[i] == kv[i + 1]);
        }
    }
}

/// Looking a key up in a run with an entry in front whose key is below
/// all its keys.
pub proof fn lemma_lookup_cons(x: (Seq<u8>, Seq<u8>), kv: Entries, key: Seq<u8>)
    requires
        keys_ascend(kv),
        forall|i: int| 0 <= i < kv.len() ==> lex_lt(x.0, (#[trigger] kv[i]).0),
    ensures
        lookup(seq![x] + kv, key) == (if x.0 == key {
            Some(x.1)
        } else if lex_lt(key, x.0) {
            None
        } else {
            lookup(kv, key)
        }),
{
    lemma_cons_ascend(x, kv);
    lemma_lookup_step(seq![x] + kv, key);
    assert((seq![x] + kv).skip(1) =~= kv);
}

/// A key below the first key of an ascending run is not in the run.
pub proof fn lemma_lookup_below(kv: Entries, key: Seq<u8>)
    requires
        keys_ascend(kv),
        kv.len() > 0 ==> lex_lt(key, kv[0].0),
    ensures
        lookup(kv, key) is None,
{
    if kv.len() > 0 {
        lemma_lookup_step(kv, key);
        lemma_lex_irreflexive(key);
    } else {
        lemma_first_at_least_is(kv, key);
    }
}

/// The merged run is ascending, starts with the lower of the two first
/// keys, and holds under every key what the first run holds under it,
/// or else what the second holds.
pub proof fn lemma_merged(a: Entries, b: Entries)
    requires
        keys_ascend(a),
        keys_ascend(b),
    ensures
        keys_ascend(merged(a, b)),
        forall|i: int|
            0 <= i < merged(a, b).len() ==> is_in(a, #[trigger] merged(a, b)[i]) || is_in(
                b,
                merged(a, b)[i],
            ),
        forall|key: Seq<u8>|
            #[trigger] lookup(merged(a, b), key) == or_else(lookup(a, key), lookup(b, key)),
    decreases a.len() + b.len(),
{
    let m = merged(a, b);
    if a.len() == 0 {
        assert forall|key: Seq<u8>| #[trigger]
            lookup(m, key) == or_else(lookup(a, key), lookup(b, key)) by {
            lemma_first_at_least_is(a, key);
        }
        assert forall|i: int| 0 <= i < m.len() implies is_in(a, #[trigger] m[i]) || is_in(
            b,
            m[i],
        ) by {
            assert(b[i] == m[i]);
        }
    } else if b.len() == 0 {
        assert forall|key: Seq<u8>| #[trigger]
            lookup(m, key) == or_else(lookup(a, key), lookup(b, key)) by {
            lemma_first_at_least_is(b, key);
        }
        assert forall|i: int| 0 <= i < m.len() implies is_in(a, #[trigger] m[i]) || is_in(
            b,
            m[i],
        ) by {
            assert(a[i] == m[i]);
        }
    } else {
        lemma_skip_ascend(a);
        lemma_skip_ascend(b);
        lemma_lex_total(a[0].0, b[0].0);
        let (x, ra, rb) = if lex_lt(a[0].0, b[0].0) {
            (a[0], a.skip(1), b)
        } else if lex_lt(b[0].0, a[0].0) {
            (b[0], a, b.skip(1))
        } else {
            (a[0], a.skip(1), b.skip(1))
        };
        let rest = merged(ra, rb);
        lemma_merged(ra, rb);
        assert(m =~= seq![x] + rest);
        // x is below every key of the two runs that are left
        assert forall|k: int| 0 <= k < ra.len() implies lex_lt(x.0, (#[trigger] ra[k]).0) by {
            if !lex_lt(a[0].0, b[0].0) && lex_lt(b[0].0, a[0].0) {
                if k > 0 {
                    assert(lex_lt(a[0].0, a[k].0));
                    lemma_lex_transitive(b[0].0, a[0].0, a[k].0);
                }
            }
        }
        assert forall|k: int| 0 <= k < rb.len() implies lex_lt(x.0, (#[trigger] rb[k]).0) by {
            if lex_lt(a[0].0, b[0].0) {
                if k > 0 {
                    assert(lex_lt(b[0].0, b[k].0));
                    lemma_lex_transitive(a[0].0, b[0].0, b[k].0);
                }
            }
        }
        assert forall|i: int| 0 <= i < rest.len() implies lex_lt(x.0, (#[trigger] rest[i]).0) by {
            if is_in(ra, rest[i]) {
                let k = choose|k: int| 0 <= k < ra.len() && #[trigger] ra[k] == rest[i];
                assert(lex_lt(x.0, ra[k].0));
            } else {
                let k = choose|k: int| 0 <= k < rb.len() && #[trigger] rb[k] == rest[i];
                assert(lex_lt(x.0, rb[k].0));
            }
        }
        lemma_cons_ascend(x, rest);
        assert forall|i: int| 0 <= i < m.len() implies is_in(a, #[trigger] m[i]) || is_in(
            b,
            m[i],
        ) by {
            if i == 0 {
                assert(m[0] == x);
                assert(is_in(a, a[0]));
                assert(is_in(b, b[0]));
            } else {
                assert(m[i] == rest[i - 1]);
                if is_in(ra, rest[i - 1]) {
                    let k = choose|k: int| 0 <= k < ra.len() && #[trigger] ra[k] == rest[i - 1];
                    if ra.len() < a.len() {
                        assert(ra[k] == a[k + 1]);
                    }
                    assert(is_in(a, rest[i - 1]));
                } else {
                    let k = choose|k: int| 0 <= k < rb.len() && #[trigger] rb[k] == rest[i - 1];
                    if rb.len() < b.len() {
                        assert(rb[k] == b[k + 1]);
                    }
                    assert(is_in(b, rest[i - 1]));
                }
            }
        }
        assert forall|key: Seq<u8>| #[trigger]
            lookup(m, key) == or_else(lookup(a, key), lookup(b, key)) by {
            lemma_lookup_cons(x, rest, key);
            lemma_lookup_step(a, key);
            lemma_lookup_step(b, key);
            assert(lookup(rest, key) == or_else(lookup(ra, key), lookup(rb, key)));
            lemma_lex_total(key, a[0].0);
            lemma_lex_total(key, b[0].0);
            lemma_lex_irreflexive(key);
            if lex_lt(a[0].0, b[0].0) {
                // x = a[0] < b[0]
                if lex_lt(key, a[0].0) {
                    lemma_lex_transitive(key, a[0].0, b[0].0);
                } else if key == a[0].0 {
                }
            } else if lex_lt(b[0].0, a[0].0) {
                // x = b[0] < a[0]
                if lex_lt(key, b[0].0) {
                    lemma_lex_transitive(key, b[0].0, a[0].0);
                } else if key == b[0].0 {
                    lemma_lookup_below(a, key);
                }
            } else {
                assert(a[0].0 == b[0].0);
            }
        }
    }
}

/// A copy of a pair of byte strings.
fn copy_pair(p: &(Vec<u8>, Vec<u8>)) -> (r: (Vec<u8>, Vec<u8>))
    ensures
        r.0@ == p.0@,
        r.1@ == p.1@,
{
    let k = copy_range(p.0.as_slice(), 0, p.0.len());
    let v = copy_range(p.1.as_slice(), 0, p.1.len());
    assert(k@ =~= p.0@);
    assert(v@ =~= p.1@);
    (k, v)
}

/// Merges two ascending runs: the entries of both in the order of their
/// keys; where both have a key, the entry of `newer` stands for it.
pub fn merge_runs(newer: &Vec<(Vec<u8>, Vec<u8>)>, older: &Vec<(Vec<u8>, Vec<u8>)>) -> (r: Vec<
    (Vec<u8>, Vec<u8>),
>)
    ensures
        pairs_view(r@) == merged(pairs_view(newer@), pairs_view(older@)),
{
    let ghost a = pairs_view(newer@);
    let ghost b = pairs_view(older@);
    let mut out: Vec<(Vec<u8>, Vec<u8>)> = Vec::new();
    let mut i: usize = 0;
    let mut j: usize = 0;
    proof {
        assert(a.skip(0) =~= a);
        assert(b.skip(0) =~= b);
        assert(pairs_view(out@) + merged(a, b) =~= merged(a, b));
    }
    while i < newer.len() || j < older.len()
        invariant
            i <= newer@.len(),
            j <= older@.len(),
            a == pairs_view(newer@),
            b == pairs_view(older@),
            merged(a, b) == pairs_view(out@) + merged(a.skip(i as int), b.skip(j as int)),
        decreases newer@.len() - i + older@.len() - j,
    {
        let ghost ra = a.skip(i as int);
        let ghost rb = b.skip(j as int);
        let ghost before = pairs_view(out@);
        proof {
            if i < newer@.len() {
                assert(ra[0] == a[i as int]);
                assert(ra.skip(1) =~= a.skip(i + 1));
            }
            if j < older@.len() {
                assert(rb[0] == b[j as int]);
                assert(rb.skip(1) =~= b.skip(j + 1));
            }
        }
        if i >= newer.len() {
            out.push(copy_pair(&older[j]));
            proof {
                // nothing is left of the first run: what is left of the second follows
                lemma_merged_left_empty(rb);
                assert(pairs_view(out@) =~= before.push(rb[0]));
                assert(merged(ra, rb.skip(1)) == rb.skip(1)) by {
                    lemma_merged_left_empty(rb.skip(1));
                }
                assert(before + rb =~= before.push(rb[0]) + rb.skip(1));
            }
            j += 1;
        } else if j >= older.len() {
            out.push(copy_pair(&newer[i]));
            proof {
                assert(pairs_view(out@) =~= before.push(ra[0]));
                assert(merged(ra, rb) == ra);
                assert(merged(ra.skip(1), rb) == ra.skip(1)) by {
                    if ra.skip(1).len() == 0 {
                        assert(rb =~= ra.skip(1));
                    }
                }
                assert(before + ra =~= before.push(ra[0]) + ra.skip(1));
            }
            i += 1;
        } else if bytes_lt(newer[i].0.as_slice(), older[j].0.as_slice()) {
            out.push(copy_pair(&newer[i]));
            proof {
                assert(pairs_view(out@) =~= before.push(ra[0]));
                assert(before + (seq![ra[0]] + merged(ra.skip(1), rb)) =~= before.push(ra[0])
                    + merged(ra.skip(1), rb));
            }
            i += 1;
        } else if bytes_lt(older[j].0.as_slice(), newer[i].0.as_slice()) {
            out.push(copy_pair(&older[j]));
            proof {
                assert(pairs_view(out@) =~= before.push(rb[0]));
                assert(before + (seq![rb[0]] + merged(ra, rb.skip(1))) =~= before.push(rb[0])
                    + merged(ra, rb.skip(1)));
            }
            j += 1;
        } else {
            out.push(copy_pair(&newer[i]));
            proof {
                assert(pairs_view(out@) =~= before.push(ra[0]));
                assert(before + (seq![ra[0]] + merged(ra.skip(1), rb.skip(1))) =~= before.push(
                    ra[0],
                ) + merged(ra.skip(1), rb.skip(1)));
            }
            i += 1;
            j += 1;
        }
    }
    proof {
        assert(a.skip(i as int) =~= Seq::empty());
        assert(pairs_view(out@) + Seq::<(Seq<u8>, Seq<u8>)>::empty() =~= pairs_view(out@));
    }
    out
}

/// With nothing in the first run the merged run is the second.
pub proof fn lemma_merged_left_empty(b: Entries)
    ensures
        merged(Seq::empty(), b) == b,
{
}

/// The entries of a table, in order, read with a cursor from the first
/// to the last.
pub fn table_scan(reader: &TableReader) -> (out: Vec<(Vec<u8>, Vec<u8>)>)
    ensures
        reader.wf() ==> pairs_view(out@) == reader.entries(),
{
    let mut out: Vec<(Vec<u8>, Vec<u8>)> = Vec::new();
    let mut it = TableIter::new(reader);
    let ghost all = reader.entries();
    let ghost good = reader.wf();
    let ghost mut n: int = 0;
    proof {
        assert(pairs_view(out@) =~= all.take(0));
    }
    loop
        invariant_except_break
            good ==> it.inv() && 0 <= n <= all.len() && pairs_view(out@) == all.take(n)
                && it.position() == (if n == 0 {
                Position::BeforeFirst
            } else {
                Position::At(n - 1)
            }),
        invariant
            it.table == reader,
            good == reader.wf(),
            all == reader.entries(),
        ensures
            good ==> pairs_view(out@) == all,
        decreases it.index_left(), it.data_left(),
    {
        let ghost before = pairs_view(out@);
        if !it.advance() {
            proof {
                if good {
                    it.lemma_inv();
                    it.lemma_linked();
                    assert(n == all.len());
                    assert(all.take(n) =~= all);
                }
            }
            break ;
        }
        proof {
            if good {
                it.lemma_inv();
                it.lemma_linked();
                it.lemma_current();
            }
        }
        match it.current_kv() {
            Some(kv) => {
                out.push(kv);
                proof {
                    if good {
                        assert(pairs_view(out@) =~= before.push(all[n]));
                        assert(all.take(n + 1) =~= all.take(n).push(all[n]));
                        n = n + 1;
                    }
                }
            },
            None => {
                proof {
                    assert(!good);
                }
                break ;
            },
        }
    }
    out
}

/// A key outside the range of a well-formed table is not in the table.
pub proof fn lemma_out_of_range(r: TableReader, key: Seq<u8>)
    requires
        r.wf(),
        !(lex_le(r.min_key_@, key) && lex_le(key, r.max_key_@)),
    ensures
        lookup(r.entries(), key) is None,
{
    let kv = r.entries();
    lemma_table_lookup(r.file@, key);
    lemma_first_at_least_is(kv, key);
    if kv.len() > 0 {
        lemma_lex_total(key, kv[0].0);
        lemma_lex_total(key, kv[kv.len() - 1].0);
        if lex_lt(key, kv[0].0) {
            lemma_lookup_below(kv, key);
        } else {
            // the key is above the last key: above all keys
            let last = kv[kv.len() - 1].0;
            assert(lex_lt(last, key));
            assert forall|k: int| 0 <= k < kv.len() implies lex_lt((#[trigger] kv[k]).0, key) by {
                if k < kv.len() - 1 {
                    assert(lex_lt(kv[k].0, last));
                    lemma_lex_transitive(kv[k].0, last, key);
                }
            }
            lemma_first_at_least(kv, key, kv.len() as int);
        }
    }
}

/// A key of a well-formed table lies in the range of the table.
pub proof fn lemma_in_range(r: TableReader, key: Seq<u8>)
    requires
        r.wf(),
        lookup(r.entries(), key) is Some,
    ensures
        lex_le(r.min_key_@, key),
        lex_le(key, r.max_key_@),
        lex_le(r.min_key_@, r.max_key_@),
{
    if !(lex_le(r.min_key_@, key) && lex_le(key, r.max_key_@)) {
        lemma_out_of_range(r, key);
    }
    crate::util::lemma_lex_le_transitive(r.min_key_@, key, r.max_key_@);
}

/// What the tables hold under a key, the last table asked first.
pub open spec fn newest_first(s: Seq<TableReader>, key: Seq<u8>) -> Option<Seq<u8>>
    decreases s.len(),
{
    if s.len() == 0 {
        None
    } else {
        or_else(lookup(s.last().entries(), key), newest_first(s.drop_last(), key))
    }
}

/// What the tables hold under a key, the first table asked first.
pub open spec fn in_order(s: Seq<TableReader>, key: Seq<u8>) -> Option<Seq<u8>>
    decreases s.len(),
{
    if s.len() == 0 {
        None
    } else {
        or_else(lookup(s[0].entries(), key), in_order(s.skip(1), key))
    }
}

/// What a lookup finds in a level.
pub open spec fn level_lookup(s: Seq<TableReader>, level: int, key: Seq<u8>) -> Option<Seq<u8>> {
    first_found(s, candidates(s, level, key), 0, key)
}

/// What is found from a place in a list of tables on does not depend on
/// the tables before that place in the list.
pub proof fn lemma_first_found_shift(
    s: Seq<TableReader>,
    p: Seq<int>,
    q: Seq<int>,
    k: int,
    key: Seq<u8>,
)
    requires
        0 <= k <= q.len(),
    ensures
        first_found(s, p + q, p.len() + k, key) == first_found(s, q, k, key),
    decreases q.len() - k,
{
    if k < q.len() {
        assert((p + q)[p.len() + k] == q[k]);
        lemma_first_found_shift(s, p, q, k + 1, key);
    }
}

/// What is found in a list of tables does not depend on the tables that
/// the list does not name.
pub proof fn lemma_first_found_same(
    s: Seq<TableReader>,
    t: Seq<TableReader>,
    idxs: Seq<int>,
    k: int,
    key: Seq<u8>,
)
    requires
        0 <= k,
        forall|i: int|
            0 <= i < idxs.len() ==> 0 <= #[trigger] idxs[i] < s.len() && idxs[i] < t.len()
                && s[idxs[i]] == t[idxs[i]],
    ensures
        first_found(s, idxs, k, key) == first_found(t, idxs, k, key),
    decreases idxs.len() - k,
{
    if k < idxs.len() {
        lemma_first_found_same(s, t, idxs, k + 1, key);
    }
}

/// In level 0 a lookup finds what the tables hold, the one added last
/// asked first.
pub proof fn lemma_level0_lookup(s: Seq<TableReader>, key: Seq<u8>)
    requires
        all_wf(s),
    ensures
        level_lookup(s, 0, key) == newest_first(s, key),
    decreases s.len(),
{
    if s.len() > 0 {
        let front = s.drop_last();
        assert forall|i: int| 0 <= i < front.len() implies (#[trigger] front[i]).wf() by {
            assert(front[i] == s[i]);
        }
        lemma_level0_lookup(front, key);
        let rest = candidates_l0(front, key);
        lemma_candidates_in_range(front, 0, key);
        assert forall|i: int| 0 <= i < rest.len() implies 0 <= #[trigger] rest[i] < front.len()
            && rest[i] < s.len() && front[rest[i]] == s[rest[i]] by {
            assert(candidates(front, 0, key)[i] == rest[i]);
        }
        lemma_first_found_same(front, s, rest, 0, key);
        assert(s[s.len() - 1].wf());
        if in_range(s.last(), key) {
            lemma_first_found_shift(s, seq![s.len() - 1], rest, 0, key);
            assert((seq![s.len() - 1] + rest)[0] == s.len() - 1);
        } else {
            lemma_out_of_range(s.last(), key);
        }
    }
}

/// No table before `i` in a sorted level holds a key that table `i`
/// holds, where the tables do not overlap, and none behind it.
pub proof fn lemma_only_one_holds(s: Seq<TableReader>, i: int, j: int, key: Seq<u8>)
    requires
        all_wf(s),
        disjoint(s),
        0 <= i < s.len(),
        0 <= j < s.len(),
        i != j,
        lookup(s[i].entries(), key) is Some,
    ensures
        lookup(s[j].entries(), key) is None,
        !in_range(s[j], key),
{
    lemma_in_range(s[i], key);
    assert(s[j].wf());
    lemma_lex_total(key, s[j].min_key_@);
    lemma_lex_total(key, s[j].max_key_@);
    if j < i {
        // s[j] ends below the start of s[i], which is at or below the key
        assert(lex_lt(s[j].max_key_@, s[i].min_key_@));
        crate::util::lemma_lex_le_lt(s[j].max_key_@, s[i].min_key_@, key);
    } else {
        assert(lex_lt(s[i].max_key_@, s[j].min_key_@));
        crate::util::lemma_lex_le_lt(key, s[i].max_key_@, s[j].min_key_@);
    }
    lemma_out_of_range(s[j], key);
}

/// The first key of a well-formed table is at or below its last.
pub proof fn lemma_min_le_max(r: TableReader)
    requires
        r.wf(),
    ensures
        lex_le(r.min_key_@, r.max_key_@),
{
    let kv = r.entries();
    lemma_table_lookup(r.file@, Seq::empty());
    if kv.len() > 1 {
        assert(lex_lt(kv[0].0, kv[kv.len() - 1].0));
    }
}

/// Where one table holds the key, asking the tables in order finds what
/// it holds.
pub proof fn lemma_in_order_one(s: Seq<TableReader>, i: int, key: Seq<u8>)
    requires
        all_wf(s),
        disjoint(s),
        0 <= i < s.len(),
        lookup(s[i].entries(), key) is Some,
    ensures
        in_order(s, key) == lookup(s[i].entries(), key),
    decreases s.len(),
{
    if i > 0 {
        lemma_only_one_holds(s, i, 0, key);
        let rest = s.skip(1);
        assert forall|k: int| 0 <= k < rest.len() implies (#[trigger] rest[k]).wf() by {
            assert(rest[k] == s[k + 1]);
        }
        assert forall|a: int, b: int| 0 <= a < b < rest.len() implies lex_lt(
            (#[trigger] rest[a]).max_key_@,
            (#[trigger] rest[b]).min_key_@,
        ) by {
            assert(rest[a] == s[a + 1] && rest[b] == s[b + 1]);
        }
        assert(rest[i - 1] == s[i]);
        lemma_in_order_one(rest, i - 1, key);
    }
}

/// Where no table holds the key, asking the tables in order finds
/// nothing.
pub proof fn lemma_in_order_none(s: Seq<TableReader>, key: Seq<u8>)
    requires
        forall|i: int| 0 <= i < s.len() ==> lookup((#[trigger] s[i]).entries(), key) is None,
    ensures
        in_order(s, key) is None,
        newest_first(s, key) is None,
    decreases s.len(),
{
    if s.len() > 0 {
        assert(lookup(s[0].entries(), key) is None);
        assert(lookup(s[s.len() - 1].entries(), key) is None);
        let rest = s.skip(1);
        assert forall|i: int| 0 <= i < rest.len() implies lookup(
            (#[trigger] rest[i]).entries(),
            key,
        ) is None by {
            assert(rest[i] == s[i + 1]);
        }
        lemma_in_order_none(rest, key);
        let front = s.drop_last();
        assert forall|i: int| 0 <= i < front.len() implies lookup(
            (#[trigger] front[i]).entries(),
            key,
        ) is None by {
            assert(front[i] == s[i]);
        }
        lemma_in_order_none(front, key);
    }
}

/// Where none of the tables asked holds the key, nothing is found.
pub proof fn lemma_first_found_none(s: Seq<TableReader>, idxs: Seq<int>, k: int, key: Seq<u8>)
    requires
        0 <= k,
        forall|i: int|
            0 <= i < idxs.len() ==> 0 <= #[trigger] idxs[i] < s.len() && lookup(
                s[idxs[i]].entries(),
                key,
            ) is None,
    ensures
        first_found(s, idxs, k, key) is None,
    decreases idxs.len() - k,
{
    if k < idxs.len() {
        lemma_first_found_none(s, idxs, k + 1, key);
    }
}

/// The search of a sorted level starts at or before a table behind which
/// no table starts below the key.
pub proof fn lemma_search_start_before(s: Seq<TableReader>, key: Seq<u8>, k: int)
    requires
        0 <= k < s.len(),
        forall|j: int| k < j < s.len() ==> !lex_lt((#[trigger] s[j]).min_key_@, key),
    ensures
        0 <= search_start(s, key) <= k,
    decreases s.len(),
{
    if s.len() > 1 {
        if lex_lt(s.last().min_key_@, key) {
            assert(s.last() == s[s.len() - 1]);
        } else {
            let front = s.drop_last();
            if k < front.len() {
                assert forall|j: int| k < j < front.len() implies !lex_lt(
                    (#[trigger] front[j]).min_key_@,
                    key,
                ) by {
                    assert(front[j] == s[j]);
                }
                lemma_search_start_before(front, key, k);
            } else {
                lemma_search_start_bound(front, key);
            }
        }
    }
}

/// The search of a level starts at one of its tables.
pub proof fn lemma_search_start_bound(s: Seq<TableReader>, key: Seq<u8>)
    ensures
        0 <= search_start(s, key),
        search_start(s, key) < s.len() || s.len() == 0,
    decreases s.len(),
{
    if s.len() > 1 && !lex_lt(s.last().min_key_@, key) {
        lemma_search_start_bound(s.drop_last(), key);
    }
}

/// A scan that meets no table that holds the key in its range and none
/// that starts above the key before table `i`, which holds the key in
/// its range, takes table `i` first.
pub proof fn lemma_scan_reaches(s: Seq<TableReader>, from: int, i: int, key: Seq<u8>)
    requires
        0 <= from <= i < s.len(),
        in_range(s[i], key),
        forall|j: int| from <= j < i ==> !in_range(#[trigger] s[j], key) && !lex_lt(key, s[j].min_key_@),
    ensures
        candidates_from(s, from, key).len() > 0,
        candidates_from(s, from, key)[0] == i,
    decreases i - from,
{
    if from < i {
        assert(!in_range(s[from], key) && !lex_lt(key, s[from].min_key_@));
        lemma_scan_reaches(s, from + 1, i, key);
    }
}

/// In a level from 1 on whose tables do not overlap a lookup finds what
/// the tables hold: at most one of them holds the key.
pub proof fn lemma_sorted_level_lookup(s: Seq<TableReader>, level: int, key: Seq<u8>)
    requires
        level != 0,
        all_wf(s),
        disjoint(s),
    ensures
        level_lookup(s, level, key) == in_order(s, key),
{
    assert forall|k: int| 0 <= k < s.len() implies lex_le(
        (#[trigger] s[k]).min_key_@,
        s[k].max_key_@,
    ) by {
        lemma_min_le_max(s[k]);
    }
    let idxs = candidates(s, level, key);
    lemma_candidates_in_range(s, level, key);
    if exists|i: int| 0 <= i < s.len() && lookup((#[trigger] s[i]).entries(), key) is Some {
        let i = choose|i: int| 0 <= i < s.len() && lookup((#[trigger] s[i]).entries(), key) is Some;
        lemma_in_order_one(s, i, key);
        lemma_in_range(s[i], key);
        let start = search_start(s, key);
        assert forall|j: int| i < j < s.len() implies !lex_lt((#[trigger] s[j]).min_key_@, key) by {
            assert(lex_lt(s[i].max_key_@, s[j].min_key_@));
            crate::util::lemma_lex_le_lt(key, s[i].max_key_@, s[j].min_key_@);
            lemma_lex_total(key, s[j].min_key_@);
        }
        lemma_search_start_before(s, key, i);
        assert forall|j: int| start <= j < i implies !in_range(#[trigger] s[j], key) && !lex_lt(
            key,
            s[j].min_key_@,
        ) by {
            lemma_only_one_holds(s, i, j, key);
            assert(lex_lt(s[j].max_key_@, s[i].min_key_@));
            crate::util::lemma_lex_le_lt(s[j].min_key_@, s[j].max_key_@, s[i].min_key_@);
            crate::util::lemma_lex_le_lt(s[j].min_key_@, s[i].min_key_@, key);
            lemma_lex_total(key, s[j].min_key_@);
        }
        lemma_scan_reaches(s, start, i, key);
        lemma_disjoint_one_candidate(s, key, start);
        assert(idxs =~= seq![i]);
        assert(first_found(s, idxs, 1, key) is None);
    } else {
        assert forall|i: int| 0 <= i < s.len() implies lookup(
            (#[trigger] s[i]).entries(),
            key,
        ) is None by {}
        lemma_in_order_none(s, key);
        lemma_first_found_none(s, idxs, 0, key);
    }
}

/// What a lookup finds from a level on is what it finds in that level,
/// or else what it finds from the next level on.
pub proof fn lemma_catalog_step(levels: Seq<Seq<TableReader>>, from: int, key: Seq<u8>)
    requires
        0 <= from < levels.len(),
    ensures
        catalog_lookup(levels, from, key) == or_else(
            level_lookup(levels[from], from, key),
            catalog_lookup(levels, from + 1, key),
        ),
{
}

/// A lookup finds the same in two catalogs that differ in two levels
/// next to each other only, where it finds the same in the two levels
/// taken together.
pub proof fn lemma_catalog_two_levels(
    a: Seq<Seq<TableReader>>,
    b: Seq<Seq<TableReader>>,
    level: int,
    from: int,
    key: Seq<u8>,
)
    requires
        a.len() == b.len(),
        0 <= level,
        level + 1 < a.len(),
        0 <= from <= a.len(),
        forall|l: int| 0 <= l < a.len() && l != level && l != level + 1 ==> a[l] == b[l],
        or_else(level_lookup(a[level], level, key), level_lookup(a[level + 1], level + 1, key))
            == or_else(
            level_lookup(b[level], level, key),
            level_lookup(b[level + 1], level + 1, key),
        ),
    ensures
        from <= level || from > level + 1 ==> catalog_lookup(a, from, key) == catalog_lookup(
            b,
            from,
            key,
        ),
    decreases a.len() - from,
{
    if from < a.len() {
        lemma_catalog_two_levels(a, b, level, from + 1, key);
        lemma_catalog_step(a, from, key);
        lemma_catalog_step(b, from, key);
        if from == level {
            lemma_catalog_step(a, from + 1, key);
            lemma_catalog_step(b, from + 1, key);
            lemma_catalog_two_levels(a, b, level, from + 2, key);
        }
    }
}

/// The tables merged into a run, the last table first: what a table
/// holds under a key stands before what the tables before it hold.
pub open spec fn merged_newest_first(s: Seq<TableReader>, acc: Entries) -> Entries
    decreases s.len(),
{
    if s.len() == 0 {
        acc
    } else {
        merged_newest_first(s.drop_last(), merged(acc, s.last().entries()))
    }
}

/// The tables merged into a run, the first table first.
pub open spec fn merged_in_order(s: Seq<TableReader>, acc: Entries) -> Entries
    decreases s.len(),
{
    if s.len() == 0 {
        acc
    } else {
        merged_in_order(s.skip(1), merged(acc, s[0].entries()))
    }
}

/// The run of merged tables is ascending and holds under every key what
/// the run that the merge began with holds, or else what the tables
/// hold, the last asked first.
pub proof fn lemma_merged_newest_first(s: Seq<TableReader>, acc: Entries, key: Seq<u8>)
    requires
        all_wf(s),
        keys_ascend(acc),
    ensures
        keys_ascend(merged_newest_first(s, acc)),
        lookup(merged_newest_first(s, acc), key) == or_else(lookup(acc, key), newest_first(s, key)),
    decreases s.len(),
{
    if s.len() > 0 {
        let t = s.last();
        assert(s[s.len() - 1].wf());
        lemma_table_lookup(t.file@, key);
        lemma_merged(acc, t.entries());
        let front = s.drop_last();
        assert forall|i: int| 0 <= i < front.len() implies (#[trigger] front[i]).wf() by {
            assert(front[i] == s[i]);
        }
        lemma_merged_newest_first(front, merged(acc, t.entries()), key);
    }
}

/// The run of merged tables is ascending and holds under every key what
/// the run that the merge began with holds, or else what the tables
/// hold, the first asked first.
pub proof fn lemma_merged_in_order(s: Seq<TableReader>, acc: Entries, key: Seq<u8>)
    requires
        all_wf(s),
        keys_ascend(acc),
    ensures
        keys_ascend(merged_in_order(s, acc)),
        lookup(merged_in_order(s, acc), key) == or_else(lookup(acc, key), in_order(s, key)),
    decreases s.len(),
{
    if s.len() > 0 {
        let t = s[0];
        lemma_table_lookup(t.file@, key);
        lemma_merged(acc, t.entries());
        let rest = s.skip(1);
        assert forall|i: int| 0 <= i < rest.len() implies (#[trigger] rest[i]).wf() by {
            assert(rest[i] == s[i + 1]);
        }
        lemma_merged_in_order(rest, merged(acc, t.entries()), key);
    }
}

/// Merges the entries of tables into a run: the tables are taken from
/// the last to the first, or from the first to the last, and what a
/// table taken earlier holds under a key stays.
pub fn merge_tables(readers: &Vec<TableReader>, from_last: bool, acc: Vec<(Vec<u8>, Vec<u8>)>) -> (r:
    Vec<(Vec<u8>, Vec<u8>)>)
    ensures
        all_wf(readers@) ==> pairs_view(r@) == (if from_last {
            merged_newest_first(readers@, pairs_view(acc@))
        } else {
            merged_in_order(readers@, pairs_view(acc@))
        }),
{
    let ghost s = readers@;
    let ghost start = pairs_view(acc@);
    let ghost good = all_wf(readers@);
    let mut cur = acc;
    let n = readers.len();
    if from_last {
        let mut i: usize = n;
        proof {
            assert(s.take(n as int) =~= s);
        }
        while i > 0
            invariant
                i <= n,
                n == s.len(),
                s == readers@,
                good == all_wf(s),
                good ==> merged_newest_first(s, start) == merged_newest_first(
                    s.take(i as int),
                    pairs_view(cur@),
                ),
            decreases i,
        {
            i -= 1;
            let entries = table_scan(&readers[i]);
            proof {
                if good {
                    assert(s[i as int].wf());
                    assert(s.take(i + 1).last() == s[i as int]);
                    assert(s.take(i + 1).drop_last() =~= s.take(i as int));
                }
            }
            cur = merge_runs(&cur, &entries);
        }
        proof {
            assert(s.take(0) =~= Seq::<TableReader>::empty());
        }
    } else {
        let mut i: usize = 0;
        proof {
            assert(s.skip(0) =~= s);
        }
        while i < n
            invariant
                i <= n,
                n == s.len(),
                s == readers@,
                good == all_wf(s),
                good ==> merged_in_order(s, start) == merged_in_order(
                    s.skip(i as int),
                    pairs_view(cur@),
                ),
            decreases n - i,
        {
            let entries = table_scan(&readers[i]);
            proof {
                if good {
                    assert(s[i as int].wf());
                    assert(s.skip(i as int)[0] == s[i as int]);
                    assert(s.skip(i as int).skip(1) =~= s.skip(i + 1));
                }
            }
            cur = merge_runs(&cur, &entries);
            i += 1;
        }
        proof {
            assert(s.skip(n as int) =~= Seq::<TableReader>::empty());
        }
    }
    cur
}

/// The file names of the tables of a level.
fn names_of_level(readers: &Vec<TableReader>) -> (names: Vec<String>)
    ensures
        names@.len() == readers@.len(),
        forall|i: int| 0 <= i < readers@.len() ==> (#[trigger] names@[i])@ == readers@[i].file_name_@,
{
    let mut names: Vec<String> = Vec::new();
    let mut i: usize = 0;
    while i < readers.len()
        invariant
            i <= readers@.len(),
            names@.len() == i,
            forall|k: int| 0 <= k < i ==> (#[trigger] names@[k])@ == readers@[k].file_name_@,
        decreases readers@.len() - i,
    {
        names.push(readers[i].file_name().clone());
        i += 1;
    }
    names
}

/// Nothing is left of a level when the names of all its tables are
/// removed.
pub proof fn lemma_without_all(s: Seq<TableReader>, names: Seq<String>)
    requires
        forall|i: int| 0 <= i < s.len() ==> name_listed(names, (#[trigger] s[i]).file_name_@),
    ensures
        readers_without(s, names) == Seq::<TableReader>::empty(),
    decreases s.len(),
{
    if s.len() > 0 {
        assert(name_listed(names, s[s.len() - 1].file_name_@));
        let front = s.drop_last();
        assert forall|i: int| 0 <= i < front.len() implies name_listed(
            names,
            (#[trigger] front[i]).file_name_@,
        ) by {
            assert(front[i] == s[i]);
        }
        lemma_without_all(front, names);
    }
}

/// What a compaction of `level` leaves of the catalog's levels: `level`
/// holds no table, the level below holds the one new table, and the
/// other levels are as before.
pub open spec fn compacted(
    levels: Seq<Seq<TableReader>>,
    level: int,
    table: TableReader,
) -> Seq<Seq<TableReader>> {
    levels.update(level, Seq::empty()).update(level + 1, seq![table])
}

/// The catalog can be compacted at `level` without a change to what a
/// lookup finds: its tables are well formed, and the tables of `level`,
/// unless it is level 0, and of the level below do not overlap.
pub open spec fn compactable(catalog: SstableReader, level: int) -> bool {
    &&& catalog.tables_wf()
    &&& level != 0 ==> disjoint(catalog.levels()[level])
    &&& disjoint(catalog.levels()[level + 1])
}

/// The compaction invariant: a catalog whose `level` and the level below
/// were replaced by one table that holds their merged entries gives for
/// every key what it gave before.
pub proof fn lemma_compaction_keeps_lookups(
    levels: Seq<Seq<TableReader>>,
    level: int,
    table: TableReader,
    key: Seq<u8>,
)
    requires
        0 <= level,
        level + 1 < levels.len(),
        all_wf(levels[level]),
        all_wf(levels[level + 1]),
        level != 0 ==> disjoint(levels[level]),
        disjoint(levels[level + 1]),
        table.wf(),
        table.entries() == merged_in_order(
            levels[level + 1],
            if level == 0 {
                merged_newest_first(levels[level], Seq::empty())
            } else {
                merged_in_order(levels[level], Seq::empty())
            },
        ),
    ensures
        catalog_lookup(compacted(levels, level, table), 0, key) == catalog_lookup(levels, 0, key),
{
    let upper = levels[level];
    let lower = levels[level + 1];
    let after = compacted(levels, level, table);
    let none = Seq::<(Seq<u8>, Seq<u8>)>::empty();
    lemma_first_at_least_is(none, key);
    // before: what the two levels hold, the upper asked first
    let acc = if level == 0 {
        merged_newest_first(upper, none)
    } else {
        merged_in_order(upper, none)
    };
    if level == 0 {
        lemma_level0_lookup(upper, key);
        lemma_merged_newest_first(upper, none, key);
    } else {
        lemma_sorted_level_lookup(upper, level, key);
        lemma_merged_in_order(upper, none, key);
    }
    lemma_sorted_level_lookup(lower, level + 1, key);
    lemma_merged_in_order(lower, acc, key);
    // after: no table in the upper level, one in the lower
    let empty = Seq::<TableReader>::empty();
    assert(after[level] == empty);
    assert(after[level + 1] == seq![table]);
    assert(candidates(empty, level, key) =~= Seq::<int>::empty());
    assert(level_lookup(empty, level, key) is None);
    let one = seq![table];
    assert(all_wf(one));
    assert(disjoint(one));
    lemma_sorted_level_lookup(one, level + 1, key);
    assert(in_order(one.skip(1), key) is None);
    assert(in_order(one, key) == lookup(table.entries(), key));
    lemma_catalog_two_levels(levels, after, level, 0, key);
}

/// The entries that a compaction of `level` stores: those of the tables
/// of `level` and of the level below, merged; for a key that several
/// tables hold, the entry that a lookup finds.
pub open spec fn compaction_run(levels: Seq<Seq<TableReader>>, level: int) -> Entries {
    merged_in_order(
        levels[level + 1],
        if level == 0 {
            merged_newest_first(levels[level], Seq::empty())
        } else {
            merged_in_order(levels[level], Seq::empty())
        },
    )
}

/// The keys of the entries that a compaction stores ascend.
pub proof fn lemma_compaction_run_ascends(levels: Seq<Seq<TableReader>>, level: int)
    requires
        0 <= level,
        level + 1 < levels.len(),
        all_wf(levels[level]),
        all_wf(levels[level + 1]),
    ensures
        keys_ascend(compaction_run(levels, level)),
{
    let none = Seq::<(Seq<u8>, Seq<u8>)>::empty();
    let key = Seq::<u8>::empty();
    let acc = if level == 0 {
        merged_newest_first(levels[level], none)
    } else {
        merged_in_order(levels[level], none)
    };
    if level == 0 {
        lemma_merged_newest_first(levels[level], none, key);
    } else {
        lemma_merged_in_order(levels[level], none, key);
    }
    lemma_merged_in_order(levels[level + 1], acc, key);
}

/// The file names of the tables of a level, in their order.
pub open spec fn level_names(s: Seq<TableReader>) -> Seq<Seq<char>> {
    Seq::new(s.len(), |i: int| s[i].file_name_@)
}

/// The names that a list of strings holds.
pub open spec fn names_view(names: Seq<String>) -> Seq<Seq<char>> {
    Seq::new(names.len(), |i: int| names[i]@)
}

/// Compacts a level into the level below: the entries of the tables of
/// both levels are merged into one table of the level below, which
/// takes the place of those tables. For a key that several tables hold
/// the entry stays that a lookup found. Returns the name and the bytes
/// of the new table file and the names of the files that are needless
/// once the new file and the manifest are written: those of the tables
/// of the two levels. `None`, and no change, where the two levels hold
/// no entry. `InvalidData` where the merged keys do not ascend or the
/// table has no room for the entries, `CompressError` where a block
/// cannot be compressed; the catalog is then as before. A catalog that
/// can be compacted at `level` is compacted where the table has room
/// for the entries and the blocks are not compressed.
pub fn compact(catalog: &mut SstableReader, level: usize, file_name: &str) -> (r: MyResult<
    Option<(String, Vec<u8>, Vec<String>)>,
>)
    requires
        old(catalog).wf(),
        level + 1 < old(catalog).levels().len(),
    ensures
        final(catalog).wf(),
        final(catalog).options() == old(catalog).options(),
        match r {
            Ok(Some((name, bytes, obsolete))) => {
                &&& name@ == file_name@
                &&& table_wf(bytes@)
                &&& names_view(obsolete@) == level_names(old(catalog).levels()[level as int])
                    + level_names(old(catalog).levels()[level + 1])
                &&& final(catalog).levels().len() == old(catalog).levels().len()
                &&& final(catalog).levels()[level as int].len() == 0
                &&& final(catalog).levels()[level + 1].len() == 1
                &&& final(catalog).levels()[level + 1][0].file@ == bytes@
                &&& final(catalog).levels()[level + 1][0].file_name_@ == file_name@
                &&& final(catalog).levels() == compacted(
                    old(catalog).levels(),
                    level as int,
                    final(catalog).levels()[level + 1][0],
                )
                &&& forall|l: int|
                    0 <= l < final(catalog).levels().len() && l != level && l != level + 1
                        ==> #[trigger] final(catalog).levels()[l] == old(catalog).levels()[l]
                &&& compactable(*old(catalog), level as int) ==> final(catalog).tables_wf()
                    && table_entries(bytes@) == compaction_run(
                    old(catalog).levels(),
                    level as int,
                ) && forall|key: Seq<u8>| #[trigger]
                    catalog_lookup(final(catalog).levels(), 0, key) == catalog_lookup(
                        old(catalog).levels(),
                        0,
                        key,
                    )
            },
            Ok(None) => *final(catalog) == *old(catalog),
            Err(s) => *final(catalog) == *old(catalog) && (s.code == StatusCode::InvalidData
                || s.code == StatusCode::CompressError),
        },
        compactable(*old(catalog), level as int) ==> ((r matches Ok(None)) <==> compaction_run(
            old(catalog).levels(),
            level as int,
        ).len() == 0),
        compactable(*old(catalog), level as int) && table_fits(
            compaction_run(old(catalog).levels(), level as int),
        ) && old(catalog).options().table_opt().compress_type == CompressType::Uncompressed ==> r
            is Ok,
        compactable(*old(catalog), level as int) ==> (r matches Err(s) ==> (s.code
            == StatusCode::InvalidData && !table_fits(
            compaction_run(old(catalog).levels(), level as int),
        )) || (s.code == StatusCode::CompressError
            && old(catalog).options().table_opt().compress_type == CompressType::Snappy)),
{
    let ghost levels = catalog.levels();
    let ghost good = compactable(*catalog, level as int);
    let ghost none = Seq::<(Seq<u8>, Seq<u8>)>::empty();
    let table_opt = catalog.table_opt();
    proof {
        if good {
            assert forall|i: int| 0 <= i < levels[level as int].len() implies (
            #[trigger] levels[level as int][i]).wf() by {}
            assert forall|i: int| 0 <= i < levels[level + 1].len() implies (
            #[trigger] levels[level + 1][i]).wf() by {}
        }
    }
    let start: Vec<(Vec<u8>, Vec<u8>)> = Vec::new();
    assert(pairs_view(start@) =~= none);
    let upper = merge_tables(catalog.get_readers(level), level == 0, start);
    let all = merge_tables(catalog.get_readers(level + 1), false, upper);
    let ghost run = pairs_view(all@);
    proof {
        if good {
            assert(run == compaction_run(levels, level as int));
            lemma_compaction_run_ascends(levels, level as int);
        }
    }
    if all.len() == 0 {
        return Ok(None);
    }
    let mut tb = TableBuilder::new(file_name, table_opt);
    let mut i: usize = 0;
    proof {
        assert(run.take(0) =~= none);
    }
    while i < all.len()
        invariant
            i <= all@.len(),
            tb.wf(),
            tb.options() == old(catalog).options().table_opt(),
            run == pairs_view(all@),
            tb@ == run.take(i as int),
            *catalog == *old(catalog),
            catalog.levels() == levels,
            catalog.wf(),
            good == compactable(*old(catalog), level as int),
            levels == old(catalog).levels(),
            all@.len() > 0,
            good ==> run == compaction_run(levels, level as int) && keys_ascend(run),
        decreases all@.len() - i,
    {
        proof {
            if i > 0 {
                assert(run.take(i as int)[i - 1] == run[i - 1]);
                assert(run[i - 1].0 == all@[i - 1].0@);
            }
            assert(run[i as int].0 == all@[i as int].0@);
        }
        if i > 0 && !bytes_lt(all[i - 1].0.as_slice(), all[i].0.as_slice()) {
            return Err(Status::new(StatusCode::InvalidData, "keys out of order"));
        }
        proof {
            assert(run.take(i + 1) =~= run.take(i as int).push(run[i as int]));
            lemma_weight_take(run, i + 1);
        }
        match tb.add(all[i].0.as_slice(), all[i].1.as_slice()) {
            Ok(()) => {},
            Err(s) => {
                return Err(s);
            },
        }
        i += 1;
    }
    proof {
        assert(run.take(all@.len() as int) =~= run);
    }
    let bytes = match tb.flush() {
        Ok(b) => b,
        Err(s) => {
            return Err(s);
        },
    };
    let copy = copy_range(bytes.as_slice(), 0, bytes.len());
    assert(copy@ =~= bytes@);
    let reader = match crate::sstable::table_reader::TableReader::new(file_name, copy, table_opt) {
        Ok(t) => t,
        Err(s) => {
            return Err(s);
        },
    };
    let upper_names = names_of_level(catalog.get_readers(level));
    let lower_names = names_of_level(catalog.get_readers(level + 1));
    proof {
        assert forall|k: int| 0 <= k < levels[level as int].len() implies name_listed(
            upper_names@,
            (#[trigger] levels[level as int][k]).file_name_@,
        ) by {
            assert(upper_names@[k]@ == levels[level as int][k].file_name_@);
        }
        assert forall|k: int| 0 <= k < levels[level + 1].len() implies name_listed(
            lower_names@,
            (#[trigger] levels[level + 1][k]).file_name_@,
        ) by {
            assert(lower_names@[k]@ == levels[level + 1][k].file_name_@);
        }
        lemma_without_all(levels[level as int], upper_names@);
        lemma_without_all(levels[level + 1], lower_names@);
    }
    let _ = catalog.remove_by_file_names(level, &upper_names);
    let _ = catalog.remove_by_file_names(level + 1, &lower_names);
    let _ = catalog.add(level + 1, reader);
    proof {
        let empty = Seq::<TableReader>::empty();
        reveal_with_fuel(add_all, 2);
        reveal_with_fuel(sort_by_min, 2);
        assert(seq![reader].skip(1) =~= empty);
        assert(empty.push(reader).drop_last() =~= empty);
        assert(insert_pos(empty, reader) == 0);
        assert(empty.insert(0, reader) =~= seq![reader]);
        assert(empty.push(reader) =~= seq![reader]);
        assert(add_all(empty, seq![reader], true) == seq![reader]);
        assert(catalog.levels() =~= compacted(levels, level as int, reader));
        if good {
            assert(reader.entries() == pairs_view(all@));
            assert forall|key: Seq<u8>| #[trigger]
                catalog_lookup(catalog.levels(), 0, key) == catalog_lookup(levels, 0, key) by {
                lemma_compaction_keeps_lookups(levels, level as int, reader, key);
            }
            assert forall|l: int, k: int|
                0 <= l < catalog.levels().len() && 0 <= k < catalog.levels()[l].len() implies (
            #[trigger] catalog.levels()[l][k]).wf() by {
                if l != level && l != level + 1 {
                    assert(catalog.levels()[l] == levels[l]);
                    assert(old(catalog).levels()[l][k].wf());
                }
            }
        }
    }
    let mut obsolete = upper_names;
    let mut lower_names = lower_names;
    let ghost upper_view = names_view(obsolete@);
    let ghost lower_view = names_view(lower_names@);
    obsolete.append(&mut lower_names);
    proof {
        assert(upper_view =~= level_names(levels[level as int]));
        assert(lower_view =~= level_names(levels[level + 1]));
        assert(names_view(obsolete@) =~= upper_view + lower_view);
    }
    Ok(Some((file_name.to_owned(), bytes, obsolete)))
}

} // verus!
