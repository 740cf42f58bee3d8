//! The manifest: which table files are live, level by level.

use crate::sstable::result::{MyResult, Status, StatusCode};
use vstd::prelude::*;

verus! {

/// What the manifest records of a table file.
#[derive(Debug, Clone, PartialEq, Eq)]
pub struct FileMeta {
    pub file_name: String,
}

/// The registry of live table files, one list for each level.
#[derive(Debug)]
pub struct ManifestBuilder {
    file_metas_: Vec<Vec<FileMeta>>,
    dirty_: bool,
}

/// The names of a list of file metas.
pub open spec fn names_of(s: Seq<FileMeta>) -> Seq<Seq<char>> {
    Seq::new(s.len(), |i: int| s[i].file_name@)
}

/// Whether `name` is one of `names`.
pub open spec fn name_listed(names: Seq<String>, name: Seq<char>) -> bool {
    exists|i: int| 0 <= i < names.len() && (#[trigger] names[i])@ == name
}

/// The names of `s` that are not among `names`, in the order of `s`.
pub open spec fn names_without(s: Seq<Seq<char>>, names: Seq<String>) -> Seq<Seq<char>>
    decreases s.len(),
{
    if s.len() == 0 {
        Seq::empty()
    } else if name_listed(names, s.last()) {
        names_without(s.drop_last(), names)
    } else {
        names_without(s.drop_last(), names).push(s.last())
    }
}

/// What to do with the manifest files when a store is opened.
#[derive(Debug, Clone, Copy, PartialEq, Eq, Structural)]
pub enum RecoverAction {
    /// Neither file is there: start with an empty manifest.
    StartEmpty,
    /// Read `MANIFEST`.
    Load,
    /// Read `MANIFEST` and delete the leftover `MANIFEST.tmp`.
    LoadAndDeleteTmp,
    /// Rename `MANIFEST.tmp` to `MANIFEST`, then read it.
    PromoteTmp,
}

/// What opening a store does about its manifest files: `MANIFEST` is read
/// where it is there, and a `MANIFEST.tmp` beside it deleted; a
/// `MANIFEST.tmp` alone is promoted.
pub open spec fn recover_action_spec(manifest_exists: bool, tmp_exists: bool) -> RecoverAction {
    if manifest_exists {
        if tmp_exists {
            RecoverAction::LoadAndDeleteTmp
        } else {
            RecoverAction::Load
        }
    } else if tmp_exists {
        RecoverAction::PromoteTmp
    } else {
        RecoverAction::StartEmpty
    }
}

/// What to do with the manifest files when a store is opened.
pub fn recover_action(manifest_exists: bool, tmp_exists: bool) -> (a: RecoverAction)
    ensures
        a == recover_action_spec(manifest_exists, tmp_exists),
{
    if manifest_exists {
        if tmp_exists {
            RecoverAction::LoadAndDeleteTmp
        } else {
            RecoverAction::Load
        }
    } else if tmp_exists {
        RecoverAction::PromoteTmp
    } else {
        RecoverAction::StartEmpty
    }
}

/// Whether `name` is one of `names`.
pub fn name_in(names: &Vec<String>, name: &String) -> (b: bool)
    ensures
        b == name_listed(names@, name@),
{
    let mut i: usize = 0;
    while i < names.len()
        invariant
            i <= names@.len(),
            forall|k: int| 0 <= k < i ==> (#[trigger] names@[k])@ != name@,
        decreases names@.len() - i,
    {
        if names[i] == *name {
            return true;
        }
        i += 1;
    }
    false
}

impl FileMeta {
    pub fn new(file_name: String) -> (fm: FileMeta)
        ensures
            fm.file_name == file_name,
    {
        FileMeta { file_name }
    }
}

impl View for ManifestBuilder {
    type V = Seq<Seq<Seq<char>>>;

    /// The file names, level by level.
    closed spec fn view(&self) -> Seq<Seq<Seq<char>>> {
        Seq::new(self.file_metas_@.len(), |l: int| names_of(self.file_metas_@[l]@))
    }
}

impl ManifestBuilder {
    /// The file metas of a level.
    pub closed spec fn file_metas_spec(&self, level: int) -> Seq<FileMeta> {
        self.file_metas_@[level]@
    }

    /// Whether the manifest has changed since it was taken for writing.
    pub closed spec fn dirty(&self) -> bool {
        self.dirty_
    }

    /// A manifest of `max_level` levels without files.
    pub fn new(max_level: usize) -> (m: ManifestBuilder)
        ensures
            m@.len() == max_level,
            forall|l: int| 0 <= l < max_level ==> (#[trigger] m@[l]).len() == 0,
            !m.dirty(),
    {
        let mut levels: Vec<Vec<FileMeta>> = Vec::new();
        let mut i: usize = 0;
        while i < max_level
            invariant
                i <= max_level,
                levels@.len() == i,
                forall|l: int| 0 <= l < i ==> (#[trigger] levels@[l])@.len() == 0,
            decreases max_level - i,
        {
            levels.push(Vec::new());
            i += 1;
        }
        ManifestBuilder { file_metas_: levels, dirty_: false }
    }

    /// A manifest of the given files.
    pub fn from_levels(levels: Vec<Vec<FileMeta>>) -> (m: ManifestBuilder)
        ensures
            m@.len() == levels@.len(),
            forall|l: int| 0 <= l < levels@.len() ==> #[trigger] m@[l] == names_of(levels@[l]@),
            !m.dirty(),
    {
        ManifestBuilder { file_metas_: levels, dirty_: false }
    }

    /// The number of levels.
    pub fn level_count(&self) -> (n: usize)
        ensures
            n == self@.len(),
    {
        self.file_metas_.len()
    }

    /// Adds a file at the end of a level's list. Nothing changes where
    /// there is no such level.
    pub fn add_file_meta(&mut self, level: usize, fm: FileMeta)
        ensures
            final(self)@.len() == old(self)@.len(),
            level < old(self)@.len() ==> final(self)@ == old(self)@.update(
                level as int,
                old(self)@[level as int].push(fm.file_name@),
            ) && final(self).dirty(),
            level >= old(self)@.len() ==> final(self)@ == old(self)@ && final(self).dirty() == old(self).dirty(),
    {
        if level >= self.file_metas_.len() {
            return ;
        }
        let ghost before = self@;
        let ghost name = fm.file_name@;
        let mut list = self.file_metas_.remove(level);
        let ghost old_list = list@;
        list.push(fm);
        self.file_metas_.insert(level, list);
        self.dirty_ = true;
        proof {
            assert(names_of(list@) =~= names_of(old_list).push(name));
            assert(self@ =~= before.update(level as int, before[level as int].push(name))) by {
                assert forall|l: int| 0 <= l < self@.len() implies self@[l] == before.update(
                    level as int,
                    before[level as int].push(name),
                )[l] by {
                    if l < level {
                        assert(self.file_metas_@[l] == old(self).file_metas_@[l]);
                    } else if l > level {
                        assert(self.file_metas_@[l] == old(self).file_metas_@[l]);
                    }
                }
            }
        }
    }

    /// Removes from a level's list the files with one of the given names.
    /// Nothing changes where there is no such level.
    pub fn remove_file_meta_by_file_names(&mut self, level: usize, file_names: &Vec<String>)
        ensures
            final(self)@.len() == old(self)@.len(),
            level < old(self)@.len() ==> final(self)@ == old(self)@.update(
                level as int,
                names_without(old(self)@[level as int], file_names@),
            ) && final(self).dirty(),
            level >= old(self)@.len() ==> final(self)@ == old(self)@ && final(self).dirty() == old(self).dirty(),
    {
        if level >= self.file_metas_.len() {
            return ;
        }
        let ghost before = self@;
        let mut list = self.file_metas_.remove(level);
        let ghost old_list = list@;
        let mut kept: Vec<FileMeta> = Vec::new();
        let ghost mut done: int = 0;
        while list.len() > 0
            invariant
                0 <= done <= old_list.len(),
                list@ == old_list.skip(done),
                names_of(kept@) == names_without(names_of(old_list).take(done), file_names@),
            decreases list@.len(),
        {
            let fm = list.remove(0);
            let listed = name_in(file_names, &fm.file_name);
            let ghost kept_before = kept@;
            if !listed {
                kept.push(fm);
            }
            proof {
                let all = names_of(old_list);
                assert(fm == old_list[done]);
                assert(all.take(done + 1).drop_last() =~= all.take(done));
                assert(all.take(done + 1).last() == fm.file_name@);
                if !listed {
                    assert(names_of(kept@) =~= names_of(kept_before).push(fm.file_name@));
                }
                assert(list@ =~= old_list.skip(done + 1));
                done = done + 1;
            }
        }
        proof {
            assert(names_of(old_list).take(done) =~= names_of(old_list));
        }
        self.file_metas_.insert(level, kept);
        self.dirty_ = true;
        proof {
            let want = before.update(level as int, names_without(before[level as int], file_names@));
            assert forall|l: int| 0 <= l < self@.len() implies self@[l] == want[l] by {
                if l < level {
                    assert(self.file_metas_@[l] == old(self).file_metas_@[l]);
                } else if l > level {
                    assert(self.file_metas_@[l] == old(self).file_metas_@[l]);
                }
            }
            assert(self@ =~= want);
        }
    }

    /// The files of a level; `None` where there is no such level.
    pub fn file_metas(&self, level: usize) -> (r: Option<&Vec<FileMeta>>)
        ensures
            match r {
                Some(v) => level < self@.len() && names_of(v@) == self@[level as int] && v@
                    == self.file_metas_spec(level as int),
                None => level >= self@.len(),
            },
    {
        if level < self.file_metas_.len() {
            Some(&self.file_metas_[level])
        } else {
            None
        }
    }

    /// Whether the manifest has changed since it was last taken for
    /// writing; the manifest counts as written from now on.
    pub fn take_dirty(&mut self) -> (d: bool)
        ensures
            d == old(self).dirty(),
            !final(self).dirty(),
            final(self)@ == old(self)@,
    {
        let d = self.dirty_;
        self.dirty_ = false;
        d
    }

    /// Whether every file of the manifest is among `present`: where one is
    /// missing the store cannot be opened.
    pub open spec fn all_present(&self, present: Seq<String>) -> bool {
        forall|l: int, i: int|
            0 <= l < self@.len() && 0 <= i < self@[l].len() ==> name_listed(
                present,
                #[trigger] self@[l][i],
            )
    }

    /// Checks the manifest against the table files that are there.
    /// `InvalidData` where a file of the manifest is missing.
    pub fn check_files(&self, present: &Vec<String>) -> (r: MyResult<()>)
        ensures
            match r {
                Ok(()) => self.all_present(present@),
                Err(s) => !self.all_present(present@) && s.code == StatusCode::InvalidData,
            },
    {
        let mut l: usize = 0;
        while l < self.file_metas_.len()
            invariant
                l <= self.file_metas_@.len(),
                forall|a: int, i: int|
                    0 <= a < l && 0 <= i < self@[a].len() ==> name_listed(
                        present@,
                        #[trigger] self@[a][i],
                    ),
            decreases self.file_metas_@.len() - l,
        {
            let list = &self.file_metas_[l];
            let mut i: usize = 0;
            while i < list.len()
                invariant
                    l < self.file_metas_@.len(),
                    list@ == self.file_metas_@[l as int]@,
                    i <= list@.len(),
                    forall|k: int|
                        0 <= k < i ==> name_listed(present@, #[trigger] self@[l as int][k]),
                decreases list@.len() - i,
            {
                if !name_in(present, &list[i].file_name) {
                    assert(self@[l as int][i as int] == list@[i as int].file_name@);
                    return Err(Status::new(StatusCode::InvalidData, "missing table file"));
                }
                assert(self@[l as int][i as int] == list@[i as int].file_name@);
                i += 1;
            }
            l += 1;
        }
        Ok(())
    }

    /// Whether a file with this name is in the manifest.
    pub open spec fn lists(&self, name: Seq<char>) -> bool {
        exists|l: int, i: int|
            0 <= l < self@.len() && 0 <= i < self@[l].len() && #[trigger] self@[l][i] == name
    }

    /// Whether a table file with this name is an orphan: the manifest
    /// does not list it, so it is deleted when the store is opened.
    pub fn is_orphan(&self, name: &String) -> (b: bool)
        ensures
            b == !self.lists(name@),
    {
        let mut l: usize = 0;
        while l < self.file_metas_.len()
            invariant
                l <= self.file_metas_@.len(),
                forall|a: int, i: int|
                    0 <= a < l && 0 <= i < self@[a].len() ==> #[trigger] self@[a][i] != name@,
            decreases self.file_metas_@.len() - l,
        {
            let list = &self.file_metas_[l];
            let mut i: usize = 0;
            while i < list.len()
                invariant
                    l < self.file_metas_@.len(),
                    list@ == self.file_metas_@[l as int]@,
                    i <= list@.len(),
                    forall|k: int| 0 <= k < i ==> #[trigger] self@[l as int][k] != name@,
                decreases list@.len() - i,
            {
                assert(self@[l as int][i as int] == list@[i as int].file_name@);
                if list[i].file_name == *name {
                    return false;
                }
                i += 1;
            }
            l += 1;
        }
        true
    }
}

} // verus!
