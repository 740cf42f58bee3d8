//! The memtable: the writes that are not yet in a table, in a skip list
//! ordered by key.

use crate::options::Options;
use crate::record::{encode_value, option_encoding, option_view, value_bytes};
use crate::sstable::options::CompressType;
use crate::sstable::block_format::{first_at_least, keys_ascend, lemma_first_at_least_is};
use crate::sstable::result::{MyResult, Status, StatusCode};
use crate::sstable::table_builder::{lemma_weight_take, table_fits, TableBuilder};
use crate::sstable::table_format::{lemma_lookup_found, lookup, table_entries, table_wf};
use crate::sstable::table_reader::TableReader;
use crate::util::{copy_range, lemma_lex_irreflexive, lemma_lex_total, lex_lt};
use skip_list::SkipList;
use vstd::prelude::*;

verus! {

#[verifier::external_type_specification]
#[verifier::external_body]
#[verifier::reject_recursive_types(K)]
#[verifier::reject_recursive_types(V)]
pub struct ExSkipList<K, V>(SkipList<K, V>);

/// What a skip list holds: for each key its value, which is there or not.
pub uninterp spec fn skiplist_map(l: SkipList<Vec<u8>, Option<Vec<u8>>>) -> Map<
    Seq<u8>,
    Option<Seq<u8>>,
>;

/// The number of levels that a skip list was made with.
pub uninterp spec fn skiplist_max_level(l: SkipList<Vec<u8>, Option<Vec<u8>>>) -> nat;

/// The map without keys.
pub open spec fn no_entries() -> Map<Seq<u8>, Option<Seq<u8>>> {
    Map::empty()
}

/// The bytes that an entry is charged beyond its key and its value.
pub const ENTRY_CHARGE: usize = 16;

/// The least number of levels that a memtable's skip list is made with.
pub const MIN_HEIGHT: usize = 2;

/// `SkipList::new`: an empty list with the given number of levels.
#[verifier::external_body]
fn skiplist_new(max_level: usize) -> (l: SkipList<Vec<u8>, Option<Vec<u8>>>)
    ensures
        skiplist_map(l) == no_entries(),
        skiplist_map(l).dom().finite(),
        skiplist_max_level(l) == max_level,
{
    SkipList::new(max_level)
}

/// `SkipList::insert`, on a list of two levels or more: the key gets the
/// value, the other keys keep theirs, and the value that the key had
/// before is returned.
#[verifier::external_body]
fn skiplist_insert(l: &mut SkipList<Vec<u8>, Option<Vec<u8>>>, k: Vec<u8>, v: Option<Vec<u8>>) -> (r:
    Option<Option<Vec<u8>>>)
    requires
        skiplist_max_level(*old(l)) >= 2,
        skiplist_map(*old(l)).dom().finite(),
    ensures
        skiplist_map(*final(l)) == skiplist_map(*old(l)).insert(k@, option_view(v)),
        skiplist_map(*final(l)).dom().finite(),
        skiplist_max_level(*final(l)) == skiplist_max_level(*old(l)),
        match r {
            Some(was) => skiplist_map(*old(l)).contains_key(k@) && skiplist_map(*old(l))[k@]
                == option_view(was),
            None => !skiplist_map(*old(l)).contains_key(k@),
        },
{
    l.insert(k, v)
}

/// `SkipList::get`: the value of the key, if the list holds the key.
#[verifier::external_body]
fn skiplist_get<'a>(l: &'a SkipList<Vec<u8>, Option<Vec<u8>>>, k: &Vec<u8>) -> (r: Option<
    &'a Option<Vec<u8>>,
>)
    ensures
        match r {
            Some(v) => skiplist_map(*l).contains_key(k@) && skiplist_map(*l)[k@] == option_view(*v),
            None => !skiplist_map(*l).contains_key(k@),
        },
{
    l.get(k)
}

/// `SkipList::iter`, on a list of one level or more, with each key and
/// value copied: the entries of the list in the order of their keys,
/// each key once.
#[verifier::external_body]
fn skiplist_entries(l: &SkipList<Vec<u8>, Option<Vec<u8>>>) -> (es: Vec<(Vec<u8>, Option<Vec<u8>>)>)
    requires
        skiplist_max_level(*l) >= 1,
    ensures
        entries_of(es@, skiplist_map(*l)),
{
    let mut out = Vec::new();
    for (k, v) in l.iter() {
        out.push((k.clone(), v.clone()));
    }
    out
}

/// `Iterator::count` of `SkipList::iter`, on a list of one level or more:
/// the number of keys of the list.
#[verifier::external_body]
fn skiplist_len(l: &SkipList<Vec<u8>, Option<Vec<u8>>>) -> (n: usize)
    requires
        skiplist_max_level(*l) >= 1,
    ensures
        n == skiplist_map(*l).dom().len(),
{
    l.iter().count()
}

/// `es` lists the entries of `m` in the order of their keys, each once.
pub open spec fn entries_of(
    es: Seq<(Vec<u8>, Option<Vec<u8>>)>,
    m: Map<Seq<u8>, Option<Seq<u8>>>,
) -> bool {
    &&& forall|i: int, j: int|
        0 <= i < j < es.len() ==> lex_lt((#[trigger] es[i]).0@, (#[trigger] es[j]).0@)
    &&& forall|i: int|
        0 <= i < es.len() ==> m.contains_key((#[trigger] es[i]).0@) && m[es[i].0@] == option_view(
            es[i].1,
        )
    &&& forall|k: Seq<u8>|
        m.contains_key(k) ==> exists|i: int| 0 <= i < es.len() && (#[trigger] es[i]).0@ == k
}

/// `kv` lists the entries of `m` as a table stores them: in the order of
/// their keys, each key once, with the encoding of what was written for
/// it.
pub open spec fn lists(kv: Seq<(Seq<u8>, Seq<u8>)>, m: Map<Seq<u8>, Option<Seq<u8>>>) -> bool {
    &&& keys_ascend(kv)
    &&& forall|i: int|
        0 <= i < kv.len() ==> m.contains_key((#[trigger] kv[i]).0) && kv[i].1 == option_encoding(
            m[kv[i].0],
        )
    &&& forall|k: Seq<u8>|
        m.contains_key(k) ==> exists|i: int| 0 <= i < kv.len() && (#[trigger] kv[i]).0 == k
}

/// There is one run that lists what was written.
pub proof fn lemma_lists_one(
    a: Seq<(Seq<u8>, Seq<u8>)>,
    b: Seq<(Seq<u8>, Seq<u8>)>,
    m: Map<Seq<u8>, Option<Seq<u8>>>,
)
    requires
        lists(a, m),
        lists(b, m),
    ensures
        a == b,
    decreases a.len(),
{
    if a.len() == 0 {
        if b.len() > 0 {
            assert(m.contains_key(b[0].0));
        }
        assert(a =~= b);
    } else {
        assert(m.contains_key(a[0].0));
        let la = a.len() - 1;
        let lb = b.len() - 1;
        let ka = a[la].0;
        let kb = b[lb].0;
        assert(m.contains_key(ka));
        assert(m.contains_key(kb));
        let j = choose|j: int| 0 <= j < b.len() && (#[trigger] b[j]).0 == ka;
        let i = choose|i: int| 0 <= i < a.len() && (#[trigger] a[i]).0 == kb;
        lemma_lex_total(ka, kb);
        if j < lb {
            assert(lex_lt(b[j].0, b[lb].0));
        }
        if i < la {
            assert(lex_lt(a[i].0, a[la].0));
        }
        assert(ka == kb);
        assert(a[la] == b[lb]);
        let rest = m.remove(ka);
        let fa = a.drop_last();
        let fb = b.drop_last();
        assert(lists(fa, rest)) by {
            assert forall|x: int, y: int| 0 <= x < y < fa.len() implies lex_lt(
                (#[trigger] fa[x]).0,
                (#[trigger] fa[y]).0,
            ) by {
                assert(lex_lt(a[x].0, a[y].0));
            }
            assert forall|x: int| 0 <= x < fa.len() implies rest.contains_key(
                (#[trigger] fa[x]).0,
            ) && fa[x].1 == option_encoding(rest[fa[x].0]) by {
                assert(lex_lt(a[x].0, a[la].0));
                lemma_lex_irreflexive(ka);
                assert(m.contains_key(a[x].0));
            }
            assert forall|k: Seq<u8>| rest.contains_key(k) implies exists|x: int|
                0 <= x < fa.len() && (#[trigger] fa[x]).0 == k by {
                assert(m.contains_key(k));
                let x = choose|x: int| 0 <= x < a.len() && (#[trigger] a[x]).0 == k;
                assert(fa[x].0 == k);
            }
        }
        assert(lists(fb, rest)) by {
            assert forall|x: int, y: int| 0 <= x < y < fb.len() implies lex_lt(
                (#[trigger] fb[x]).0,
                (#[trigger] fb[y]).0,
            ) by {
                assert(lex_lt(b[x].0, b[y].0));
            }
            assert forall|x: int| 0 <= x < fb.len() implies rest.contains_key(
                (#[trigger] fb[x]).0,
            ) && fb[x].1 == option_encoding(rest[fb[x].0]) by {
                assert(lex_lt(b[x].0, b[lb].0));
                lemma_lex_irreflexive(kb);
                assert(m.contains_key(b[x].0));
            }
            assert forall|k: Seq<u8>| rest.contains_key(k) implies exists|x: int|
                0 <= x < fb.len() && (#[trigger] fb[x]).0 == k by {
                assert(m.contains_key(k));
                let x = choose|x: int| 0 <= x < b.len() && (#[trigger] b[x]).0 == k;
                assert(fb[x].0 == k);
            }
        }
        lemma_lists_one(fa, fb, rest);
        assert(a =~= fa.push(a[la]));
        assert(b =~= fb.push(b[lb]));
    }
}

/// Whether what was written can be stored as a table: every value has
/// its bytes, and a table has room for the run that lists it.
pub open spec fn writes_storable(m: Map<Seq<u8>, Option<Seq<u8>>>) -> bool {
    &&& forall|key: Seq<u8>| m.contains_key(key) ==> value_bytes(#[trigger] m[key]) is Some
    &&& exists|kv: Seq<(Seq<u8>, Seq<u8>)>| #[trigger] lists(kv, m) && table_fits(kv)
}

/// The charge of a memtable after a key got a value of `new_len` bytes:
/// the key, the value and sixteen bytes more are added for a new key; for
/// a key that was there the old value is taken off and the new one added.
/// A value that is not there counts as empty.
pub open spec fn charge_after(
    charge: nat,
    key_len: nat,
    was: Option<Option<Seq<u8>>>,
    new_len: nat,
) -> nat {
    match was {
        None => charge + key_len + new_len + ENTRY_CHARGE as nat,
        Some(old) => {
            let old_len = match old {
                Some(b) => b.len(),
                None => 0,
            };
            if charge + new_len >= old_len {
                (charge + new_len - old_len) as nat
            } else {
                0
            }
        },
    }
}

/// The number that stands for a charge in a `usize`.
pub open spec fn clamp(n: nat) -> usize {
    if n > usize::MAX {
        usize::MAX
    } else {
        n as usize
    }
}

/// The length of a value that is there or not.
pub open spec fn value_len(v: Option<Seq<u8>>) -> nat {
    match v {
        Some(b) => b.len(),
        None => 0,
    }
}

/// The memtable.
pub struct Memtable {
    max_size_: usize,
    size_: usize,
    max_height_: usize,
    map_: SkipList<Vec<u8>, Option<Vec<u8>>>,
}

impl View for Memtable {
    type V = Map<Seq<u8>, Option<Seq<u8>>>;

    /// For each key written its value, or that it was deleted.
    closed spec fn view(&self) -> Map<Seq<u8>, Option<Seq<u8>>> {
        skiplist_map(self.map_)
    }
}

impl Memtable {
    /// The memtable's invariant: its skip list has two levels or more.
    pub closed spec fn wf(&self) -> bool {
        &&& skiplist_max_level(self.map_) == self.max_height_
        &&& self.max_height_ >= MIN_HEIGHT
        &&& skiplist_map(self.map_).dom().finite()
        &&& forall|k: Seq<u8>|
            skiplist_map(self.map_).contains_key(k) ==> value_len(
                #[trigger] skiplist_map(self.map_)[k],
            ) <= usize::MAX
    }

    /// A memtable holds finitely many keys.
    pub proof fn lemma_finite(&self)
        requires
            self.wf(),
        ensures
            self@.dom().finite(),
    {
    }

    /// The values of a memtable are vectors: their lengths fit in 64 bits.
    pub proof fn lemma_value_len(&self, key: Seq<u8>)
        requires
            self.wf(),
            self@.contains_key(key),
        ensures
            self@[key] matches Some(b) ==> b.len() <= u64::MAX,
    {
        assert(value_len(skiplist_map(self.map_)[key]) <= usize::MAX);
    }

    /// The charge of the memtable.
    pub closed spec fn charge(&self) -> usize {
        self.size_
    }

    /// The charge at which the memtable is full.
    pub closed spec fn max_size(&self) -> usize {
        self.max_size_
    }

    /// An empty memtable that is full at a charge of `max_size`, on a skip
    /// list of `max_height` levels, and of two where that is less.
    pub fn new(max_size: usize, max_height: usize) -> (m: Memtable)
        ensures
            m.wf(),
            m@ == no_entries(),
            m.charge() == 0,
            m.max_size() == max_size,
    {
        let height = if max_height < MIN_HEIGHT {
            MIN_HEIGHT
        } else {
            max_height
        };
        Memtable { max_size_: max_size, size_: 0, max_height_: height, map_: skiplist_new(height) }
    }

    /// The entries in the order of their keys.
    pub fn iter(&self) -> (es: Vec<(Vec<u8>, Option<Vec<u8>>)>)
        requires
            self.wf(),
        ensures
            entries_of(es@, self@),
    {
        skiplist_entries(&self.map_)
    }

    /// The number of keys.
    pub fn length(&self) -> (n: usize)
        requires
            self.wf(),
        ensures
            n == self@.dom().len(),
    {
        skiplist_len(&self.map_)
    }

    /// What was written for the key last: a value, or that the key was
    /// deleted; `None` where nothing was written for it.
    pub fn get(&self, k: &Vec<u8>) -> (r: Option<&Option<Vec<u8>>>)
        ensures
            match r {
                Some(v) => self@.contains_key(k@) && self@[k@] == option_view(*v),
                None => !self@.contains_key(k@),
            },
    {
        skiplist_get(&self.map_, k)
    }

    /// Writes a value for the key, or that the key is deleted. Returns
    /// what was written for the key before.
    pub fn insert(&mut self, k: Vec<u8>, v: Option<Vec<u8>>) -> (r: Option<Option<Vec<u8>>>)
        requires
            old(self).wf(),
        ensures
            final(self).wf(),
            final(self)@ == old(self)@.insert(k@, option_view(v)),
            final(self).max_size() == old(self).max_size(),
            match r {
                Some(was) => old(self)@.contains_key(k@) && old(self)@[k@] == option_view(was),
                None => !old(self)@.contains_key(k@),
            },
            final(self).charge() == clamp(
                charge_after(
                    old(self).charge() as nat,
                    k@.len(),
                    if old(self)@.contains_key(k@) {
                        Some(old(self)@[k@])
                    } else {
                        None
                    },
                    value_len(option_view(v)),
                ),
            ),
    {
        let key_len = k.len();
        let new_len = match &v {
            Some(b) => b.len(),
            None => 0,
        };
        let ghost before = skiplist_map(self.map_);
        let ghost key = k@;
        let was = skiplist_insert(&mut self.map_, k, v);
        proof {
            assert forall|q: Seq<u8>| skiplist_map(self.map_).contains_key(q) implies value_len(
                #[trigger] skiplist_map(self.map_)[q],
            ) <= usize::MAX by {
                if q != key {
                    assert(before.contains_key(q));
                    assert(skiplist_map(self.map_)[q] == before[q]);
                }
            }
        }
        let size = self.size_;
        self.size_ = match &was {
            None => {
                let a = if size > usize::MAX - key_len {
                    usize::MAX
                } else {
                    size + key_len
                };
                let b = if a > usize::MAX - new_len {
                    usize::MAX
                } else {
                    a + new_len
                };
                if b > usize::MAX - ENTRY_CHARGE {
                    usize::MAX
                } else {
                    b + ENTRY_CHARGE
                }
            },
            Some(old) => {
                let old_len = match old {
                    Some(b) => b.len(),
                    None => 0,
                };
                if size >= old_len {
                    let rest = size - old_len;
                    if rest > usize::MAX - new_len {
                        usize::MAX
                    } else {
                        rest + new_len
                    }
                } else if new_len >= old_len - size {
                    new_len - (old_len - size)
                } else {
                    0
                }
            },
        };
        was
    }

    /// Forgets all writes.
    pub fn clear(&mut self)
        requires
            old(self).wf(),
        ensures
            final(self).wf(),
            final(self)@ == no_entries(),
            final(self).charge() == 0,
            final(self).max_size() == old(self).max_size(),
    {
        self.size_ = 0;
        self.map_ = skiplist_new(self.max_height_);
    }

    /// Whether the charge has reached the size at which the memtable is
    /// flushed.
    pub fn is_full(&self) -> (b: bool)
        ensures
            b == (self.charge() >= self.max_size()),
    {
        self.size_ >= self.max_size_
    }

    /// The charge: an estimate of the bytes that the entries take.
    pub fn size(&self) -> (n: usize)
        ensures
            n == self.charge(),
    {
        self.size_
    }

    /// What the table of a memtable holds under a key: the encoding of
    /// what was written for the key, a value or that the key was deleted.
    pub open spec fn stored(&self, key: Seq<u8>) -> Option<Seq<u8>> {
        if self@.contains_key(key) {
            Some(option_encoding(self@[key]))
        } else {
            None
        }
    }

    /// Whether the memtable can be stored as a table.
    pub open spec fn storable(&self) -> bool {
        writes_storable(self@)
    }

    /// Builds the table of the memtable's entries: each key with the
    /// encoding of what was written for it. `None` for an empty
    /// memtable, and for no other; else the table's name, the bytes of
    /// its file and its reader. `InvalidData` where a value has no bytes
    /// or an entry does not fit; `CompressError` where a block cannot be
    /// compressed. A memtable that can be stored is stored, where the
    /// blocks are not compressed.
    pub fn build_sstable(&self, opt: &Options, path: &str) -> (r: MyResult<
        Option<(String, Vec<u8>, TableReader)>,
    >)
        requires
            self.wf(),
        ensures
            match r {
                Ok(Some((name, bytes, reader))) => name@ == path@ && table_wf(bytes@)
                    && reader.wf() && reader.file@ == bytes@ && reader.file_name_@ == path@
                    && self@.dom().len() > 0
                    && lists(table_entries(bytes@), self@) && forall|key: Seq<u8>|
                    lookup(table_entries(bytes@), key) == #[trigger] self.stored(key),
                Ok(None) => self@.dom().len() == 0,
                Err(s) => self@.dom().len() > 0 && ((s.code == StatusCode::InvalidData
                    && !self.storable()) || (s.code == StatusCode::CompressError
                    && opt.table_opt().compress_type == CompressType::Snappy)),
            },
            self@.dom().len() == 0 ==> r matches Ok(None),
            self.storable() && opt.table_opt().compress_type == CompressType::Uncompressed ==> r
                is Ok,
    {
        let es = self.iter();
        if es.len() == 0 {
            proof {
                if self@.dom().len() > 0 {
                    let k = self@.dom().choose();
                    assert(self@.contains_key(k));
                }
            }
            return Ok(None);
        }
        proof {
            assert(self@.contains_key(es@[0].0@));
            if self@.dom().len() == 0 {
                self@.dom().lemma_len0_is_empty();
            }
        }
        let table_opt = opt.to_table_opt();
        let mut tb = TableBuilder::new(path, table_opt);
        let ghost want = Seq::new(
            es@.len(),
            |j: int| (es@[j].0@, option_encoding(option_view(es@[j].1))),
        );
        proof {
            assert(lists(want, self@)) by {
                assert forall|k: Seq<u8>| self@.contains_key(k) implies exists|j: int|
                    0 <= j < want.len() && (#[trigger] want[j]).0 == k by {
                    let w = choose|w: int| 0 <= w < es@.len() && (#[trigger] es@[w]).0@ == k;
                    assert(want[w].0 == k);
                }
                assert forall|a: int, b: int| 0 <= a < b < want.len() implies lex_lt(
                    (#[trigger] want[a]).0,
                    (#[trigger] want[b]).0,
                ) by {
                    assert(lex_lt(es@[a].0@, es@[b].0@));
                }
                assert forall|j: int| 0 <= j < want.len() implies self@.contains_key(
                    (#[trigger] want[j]).0,
                ) && want[j].1 == option_encoding(self@[want[j].0]) by {
                    assert(self@.contains_key(es@[j].0@));
                }
            }
            assert(want.take(0) =~= Seq::<(Seq<u8>, Seq<u8>)>::empty());
            if self.storable() {
                let kv = choose|kv: Seq<(Seq<u8>, Seq<u8>)>| #[trigger]
                    lists(kv, self@) && table_fits(kv);
                lemma_lists_one(kv, want, self@);
            }
        }
        let mut i: usize = 0;
        while i < es.len()
            invariant
                i <= es@.len(),
                entries_of(es@, self@),
                self@.dom().len() > 0,
                lists(want, self@),
                self.storable() ==> table_fits(want),
                want.len() == es@.len(),
                forall|j: int|
                    0 <= j < es@.len() ==> (#[trigger] want[j]) == (
                        es@[j].0@,
                        option_encoding(option_view(es@[j].1)),
                    ),
                tb.wf(),
                tb.options() == opt.table_opt(),
                tb@ == want.take(i as int),
            decreases es@.len() - i,
        {
            let value = match encode_value(&es[i].1) {
                Some(v) => v,
                None => {
                    proof {
                        assert(self@.contains_key(es@[i as int].0@));
                    }
                    return Err(Status::new(StatusCode::InvalidData, "value cannot be encoded"));
                },
            };
            proof {
                if i > 0 {
                    assert(lex_lt(es@[i - 1].0@, es@[i as int].0@));
                    assert(want.take(i as int)[i - 1] == want[i - 1]);
                }
                assert(want.take(i + 1) =~= want.take(i as int).push(want[i as int]));
                lemma_weight_take(want, i + 1);
            }
            match tb.add(es[i].0.as_slice(), value.as_slice()) {
                Ok(()) => {},
                Err(s) => {
                    return Err(s);
                },
            }
            i += 1;
        }
        let ghost kv = tb@;
        proof {
            assert(want.take(es@.len() as int) =~= want);
        }
        let bytes = match tb.flush() {
            Ok(b) => b,
            Err(s) => {
                return Err(s);
            },
        };
        let copy = copy_range(bytes.as_slice(), 0, bytes.len());
        assert(copy@ =~= bytes@);
        let reader = match TableReader::new(path, copy, table_opt) {
            Ok(t) => t,
            Err(s) => {
                return Err(s);
            },
        };
        proof {
            assert(keys_ascend(kv)) by {
                assert forall|a: int, b: int| 0 <= a < b < kv.len() implies lex_lt(
                    (#[trigger] kv[a]).0,
                    (#[trigger] kv[b]).0,
                ) by {
                    assert(lex_lt(es@[a].0@, es@[b].0@));
                }
            }
            assert forall|key: Seq<u8>| lookup(kv, key) == #[trigger] self.stored(key) by {
                lemma_first_at_least_is(kv, key);
                if self@.contains_key(key) {
                    let w = choose|w: int| 0 <= w < es@.len() && (#[trigger] es@[w]).0@ == key;
                    lemma_lookup_found(kv, w);
                } else {
                    let p = first_at_least(kv, key);
                    if p < kv.len() && kv[p].0 == key {
                        assert(self@.contains_key(es@[p].0@));
                    }
                }
            }
        }
        Ok(Some((path.to_owned(), bytes, reader)))
    }
}

} // verus!
