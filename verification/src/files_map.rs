//! The decisions of the copy: which target contents are already present,
//! where a new source file goes, and what is recorded once it is copied.
//!
//! Walking folders, reading files, asking whether a path exists and copying
//! are done by the caller, which hands the results to these functions and
//! carries out the steps they return.

use vstd::prelude::*;
use vstd::utf8::{encode_utf8, is_char_boundary, valid_utf8};
use crate::file_index::{FileIndex, copy_bytes};
use crate::paths::{
    candidate_path, file_name, last_separator, lemma_last_separator_bounds,
    lemma_candidate_keeps_folder, forward_slashes, is_separator, last_index_of, lemma_last_index_of_bounds,
    make_candidate, push_all, BACKSLASH, push_range, find_last, get_file_name, to_forward_slashes, SLASH,
};

verus! {

broadcast use vstd::utf8::encode_utf8_valid_utf8;

/// A file met while walking the target folder: its path and its content key.
pub struct FileRecord {
    pub path: String,
    pub hash: Vec<u8>,
}

/// What the caller does next for the source file being handled.
#[derive(Debug)]
pub enum CopyStep {
    /// Its content is already in the target folder: nothing to copy.
    AlreadyPresent,
    /// Ask whether this path exists and report the answer with
    /// `SourceFileBrowser::on_probe_result`.
    Probe(Vec<u8>),
    /// Create `dest_dir` and copy `source` to `dest`.
    Copy(CopyOrder),
}

/// A copy to perform; all three paths use `/` as separator.
#[derive(Debug)]
pub struct CopyOrder {
    pub source: Vec<u8>,
    pub dest: Vec<u8>,
    pub dest_dir: Vec<u8>,
}

/// The UTF-8 bytes of a string.
pub open spec fn bytes_of(s: Seq<char>) -> Seq<u8> {
    encode_utf8(s)
}

/// Whether `s` holds a `/` or a `\`.
pub open spec fn has_separator(s: Seq<u8>) -> bool {
    exists|i: int| 0 <= i < s.len() && is_separator(s[i])
}

/// Where a source file at `path` lands before any renaming: below the target
/// base, either at its path relative to the source base (the bytes after the
/// first `source_base_len` ones) or, when paths are not preserved, directly
/// under the target base with its file name.
pub open spec fn destination_path(
    target_base: Seq<u8>,
    source_base_len: nat,
    path: Seq<u8>,
    preserve: bool,
) -> Seq<u8> {
    if preserve {
        target_base + path.subrange(source_base_len as int, path.len() as int)
    } else {
        target_base + seq![SLASH] + file_name(path)
    }
}

/// The folder of `dest`: everything before its last `/`.
pub open spec fn parent_dir(dest: Seq<u8>) -> Seq<u8> {
    dest.subrange(0, last_index_of(dest, SLASH))
}

/// The folder created for a copy is its destination without the last
/// component: with every `\` of the destination turned into `/`, the
/// destination is that folder, then a `/`, then a name holding no `/`.
pub proof fn lemma_copy_folder_is_destination_folder(path_dest: Seq<u8>)
    requires
        has_separator(path_dest),
    ensures
        ({
            let dest = forward_slashes(path_dest);
            let dir = parent_dir(dest);
            &&& dest.len() == path_dest.len()
            &&& forall|j: int|
                0 <= j < dest.len() ==> #[trigger] dest[j] == if path_dest[j] == BACKSLASH {
                    SLASH
                } else {
                    path_dest[j]
                }
            &&& dir.len() < dest.len()
            &&& dest.subrange(0, dir.len() as int) == dir
            &&& dest[dir.len() as int] == SLASH
            &&& forall|j: int| dir.len() < j < dest.len() ==> #[trigger] dest[j] != SLASH
        }),
{
    let dest = forward_slashes(path_dest);
    let i = choose|i: int| 0 <= i < path_dest.len() && is_separator(path_dest[i]);
    assert(dest[i] == SLASH);
    lemma_last_index_of_bounds(dest, SLASH);
    let k = last_index_of(dest, SLASH);
    assert(parent_dir(dest).len() == k);
}

/// A new file goes below the target base: its destination before renaming
/// starts with the target base followed by a separator, and so does every
/// numbered name tried for it, which keeps the destination's folders.  With
/// preserved paths this asks that the part of the source path after the
/// source base hold a separator, as every path met below a source base not
/// ending in one does (the destination is the two joined without adding one).
pub proof fn lemma_destination_under_target_base(
    target_base: Seq<u8>,
    source_base_len: nat,
    path: Seq<u8>,
    preserve: bool,
    attempt: nat,
)
    requires
        preserve ==> source_base_len <= path.len(),
        preserve ==> has_separator(path.subrange(source_base_len as int, path.len() as int)),
    ensures
        ({
            let dest = destination_path(target_base, source_base_len, path, preserve);
            let c = candidate_path(dest, attempt);
            &&& last_separator(dest) >= target_base.len()
            &&& dest.subrange(0, target_base.len() as int) == target_base
            &&& c.len() > target_base.len()
            &&& c.subrange(0, target_base.len() as int) == target_base
            &&& is_separator(c[last_separator(dest)])
            &&& c.subrange(0, last_separator(dest) + 1) == dest.subrange(0, last_separator(dest) + 1)
        }),
{
    let dest = destination_path(target_base, source_base_len, path, preserve);
    let n = target_base.len() as int;
    assert(dest.subrange(0, n) =~= target_base);
    lemma_last_separator_bounds(dest);
    if preserve {
        let rel = path.subrange(source_base_len as int, path.len() as int);
        let i = choose|i: int| 0 <= i < rel.len() && is_separator(rel[i]);
        assert(dest[n + i] == rel[i]);
    } else {
        assert(dest[n] == SLASH);
    }
    let k = last_separator(dest) + 1;
    lemma_candidate_keeps_folder(dest, attempt);
    let c = candidate_path(dest, attempt);
    assert(c.subrange(0, k)[k - 1] == c[k - 1]);
    assert(c.subrange(0, n) =~= c.subrange(0, k).subrange(0, n));
    assert(dest.subrange(0, n) =~= dest.subrange(0, k).subrange(0, n));
}

/// The record after the target files `records` were met in order.
pub open spec fn record_all(files: Map<Seq<u8>, Seq<u8>>, records: Seq<FileRecord>) -> Map<
    Seq<u8>,
    Seq<u8>,
>
    decreases records.len(),
{
    if records.len() == 0 {
        files
    } else {
        record_all(files, records.drop_last()).insert(
            records.last().hash@,
            bytes_of(records.last().path@),
        )
    }
}

/// Walking the target records every file met, however often a content
/// repeats: the recorded contents are those recorded before plus the key of
/// every record, each key of a record leads to the path of the last record
/// carrying it, and a key no record carries keeps what it led to.
pub proof fn lemma_record_all_records_every_file(
    files: Map<Seq<u8>, Seq<u8>>,
    records: Seq<FileRecord>,
)
    ensures
        forall|k: Seq<u8>|
            #[trigger] record_all(files, records).contains_key(k) <==> (files.contains_key(k) || exists|
                i: int,
            | 0 <= i < records.len() && (#[trigger] records[i]).hash@ == k),
        forall|i: int|
            0 <= i < records.len() && (forall|m: int|
                i < m < records.len() ==> (#[trigger] records[m]).hash@ != records[i].hash@)
                ==> record_all(files, records)[(#[trigger] records[i]).hash@] == bytes_of(
                records[i].path@,
            ),
        forall|k: Seq<u8>|
            files.contains_key(k) && (forall|i: int|
                0 <= i < records.len() ==> (#[trigger] records[i]).hash@ != k)
                ==> #[trigger] record_all(files, records)[k] == files[k],
    decreases records.len(),
{
    if records.len() > 0 {
        let rest = records.drop_last();
        let last = records.last();
        let n = rest.len() as int;
        lemma_record_all_records_every_file(files, rest);
        let before = record_all(files, rest);
        let after = record_all(files, records);
        assert(after == before.insert(last.hash@, bytes_of(last.path@)));
        assert forall|k: Seq<u8>| #[trigger] after.contains_key(k) <==> (files.contains_key(k) || exists|
            i: int,
        | 0 <= i < records.len() && (#[trigger] records[i]).hash@ == k) by {
            if after.contains_key(k) && !files.contains_key(k) {
                if k == last.hash@ {
                    assert(records[n] == last);
                } else {
                    let i = choose|i: int| 0 <= i < rest.len() && (#[trigger] rest[i]).hash@ == k;
                    assert(records[i] == rest[i]);
                }
            }
            if exists|i: int| 0 <= i < records.len() && (#[trigger] records[i]).hash@ == k {
                let i = choose|i: int| 0 <= i < records.len() && (#[trigger] records[i]).hash@ == k;
                if i < n {
                    assert(rest[i] == records[i]);
                }
            }
        }
        assert forall|i: int|
            0 <= i < records.len() && (forall|m: int|
                i < m < records.len() ==> (#[trigger] records[m]).hash@ != records[i].hash@)
                implies after[(#[trigger] records[i]).hash@] == bytes_of(records[i].path@) by {
            if i < n {
                assert(rest[i] == records[i]);
                assert(records[n] == last);
                assert forall|m: int| i < m < rest.len() implies (#[trigger] rest[m]).hash@
                    != rest[i].hash@ by {
                    assert(rest[m] == records[m]);
                }
            } else {
                assert(records[i] == last);
            }
        }
        assert forall|k: Seq<u8>|
            files.contains_key(k) && (forall|i: int|
                0 <= i < records.len() ==> (#[trigger] records[i]).hash@ != k)
                implies #[trigger] after[k] == files[k] by {
            assert(records[n] == last);
            assert forall|i: int| 0 <= i < rest.len() implies (#[trigger] rest[i]).hash@ != k by {
                assert(rest[i] == records[i]);
            }
        }
    }
}

/// The target folder: its base path, whether source paths are preserved
/// below it, and the record of the contents it holds (content key to path).
pub struct TargetFileBrowser {
    files: FileIndex,
    base_path: String,
    preserve_path: bool,
}

impl TargetFileBrowser {
    pub closed spec fn files(&self) -> Map<Seq<u8>, Seq<u8>> {
        self.files.map()
    }

    pub closed spec fn base(&self) -> Seq<char> {
        self.base_path@
    }

    pub closed spec fn preserves_paths(&self) -> bool {
        self.preserve_path
    }

    pub closed spec fn wf(&self) -> bool {
        self.files.wf()
    }

    /// A target rooted at `base_path` with nothing recorded yet.
    pub fn new(base_path: &str, preserve_path: bool) -> (target: Self)
        ensures
            target.wf(),
            target.files() == Map::<Seq<u8>, Seq<u8>>::empty(),
            target.base() == base_path@,
            target.preserves_paths() == preserve_path,
    {
        TargetFileBrowser { files: FileIndex::new(), base_path: base_path.to_owned(), preserve_path }
    }

    /// The base path of the target folder.
    pub fn get_base_path(&self) -> (base: String)
        ensures
            base@ == self.base(),
    {
        self.base_path.clone()
    }

    /// Whether a content with key `hash` is recorded.
    pub fn is_in_files(&self, hash: &[u8]) -> (found: bool)
        requires
            self.wf(),
        ensures
            found == self.files().contains_key(hash@),
    {
        self.files.contains_key(hash)
    }

    /// Records a file met in the target folder: `hash` now leads to `path`.
    pub fn on_file_entry(&mut self, path: &str, hash: &[u8])
        requires
            old(self).wf(),
        ensures
            final(self).wf(),
            final(self).files() == old(self).files().insert(hash@, bytes_of(path@)),
            final(self).base() == old(self).base(),
            final(self).preserves_paths() == old(self).preserves_paths(),
    {
        let key = copy_bytes(hash);
        let value = copy_bytes(path.as_bytes());
        self.files.insert(key, value);
    }

    /// Records the files met while walking the target folder, in order.
    pub fn init(&mut self, records: &Vec<FileRecord>)
        requires
            old(self).wf(),
        ensures
            final(self).wf(),
            final(self).files() == record_all(old(self).files(), records@),
            final(self).base() == old(self).base(),
            final(self).preserves_paths() == old(self).preserves_paths(),
    {
        let mut i: usize = 0;
        while i < records.len()
            invariant
                i <= records@.len(),
                self.wf(),
                self.files() == record_all(old(self).files(), records@.subrange(0, i as int)),
                self.base() == old(self).base(),
                self.preserves_paths() == old(self).preserves_paths(),
            decreases records@.len() - i,
        {
            let record = &records[i];
            self.on_file_entry(record.path.as_str(), record.hash.as_slice());
            proof {
                let prefix = records@.subrange(0, i + 1);
                assert(prefix.drop_last() =~= records@.subrange(0, i as int));
                assert(prefix.last() == records@[i as int]);
            }
            i = i + 1;
        }
        assert(records@.subrange(0, records@.len() as int) =~= records@);
    }

    /// Records a copy about to be made and returns it: `hash` now leads to
    /// `path_dest` with `/` separators, and the copy goes from `path_source`
    /// (with `/` separators) into the folder part of the destination.
    pub fn add_to_file(&mut self, hash: &[u8], path_source: &[u8], path_dest: &[u8]) -> (order: CopyOrder)
        requires
            old(self).wf(),
            valid_utf8(path_source@),
            has_separator(path_dest@),
        ensures
            final(self).wf(),
            final(self).files() == old(self).files().insert(hash@, forward_slashes(path_dest@)),
            final(self).base() == old(self).base(),
            final(self).preserves_paths() == old(self).preserves_paths(),
            order.source@ == forward_slashes(path_source@),
            order.dest@ == forward_slashes(path_dest@),
            order.dest_dir@ == parent_dir(forward_slashes(path_dest@)),
    {
        let source = to_forward_slashes(path_source);
        let dest = to_forward_slashes(path_dest);
        proof {
            let i = choose|i: int| 0 <= i < path_dest@.len() && is_separator(path_dest@[i]);
            assert(dest@[i] == SLASH);
            lemma_last_index_of_bounds(dest@, SLASH);
        }
        let split = match find_last(dest.as_slice(), SLASH) {
            Some(k) => k,
            None => 0,
        };
        let mut dest_dir: Vec<u8> = Vec::new();
        push_range(&mut dest_dir, dest.as_slice(), 0, split);
        let key = copy_bytes(hash);
        let recorded = copy_bytes(dest.as_slice());
        self.files.insert(key, recorded);
        CopyOrder { source, dest, dest_dir }
    }
}

/// What a source file waits for while a free destination is searched.
pub struct PendingCopy {
    hash: Vec<u8>,
    source: Vec<u8>,
    intended_dest: Vec<u8>,
    attempt: u32,
}

/// The state of a pending copy: content key, source path, the destination
/// before renaming, and the number of the name last proposed.
pub struct PendingView {
    pub hash: Seq<u8>,
    pub source: Seq<u8>,
    pub intended: Seq<u8>,
    pub attempt: nat,
}

/// A source folder being merged into the target.
pub struct SourceFileBrowser {
    base_path: String,
    pending: Option<PendingCopy>,
}

impl SourceFileBrowser {
    /// The source path of a file in hand is UTF-8, as every path handed in
    /// as a `&str` is.
    #[verifier::type_invariant]
    spec fn pending_source_is_utf8(&self) -> bool {
        match self.pending {
            Some(p) => valid_utf8(p.source@),
            None => true,
        }
    }

    pub closed spec fn base(&self) -> Seq<char> {
        self.base_path@
    }

    pub closed spec fn pending(&self) -> Option<PendingView> {
        match self.pending {
            Some(p) => Some(
                PendingView {
                    hash: p.hash@,
                    source: p.source@,
                    intended: p.intended_dest@,
                    attempt: p.attempt as nat,
                },
            ),
            None => None,
        }
    }

    /// A source folder rooted at `base_path`, with no file in hand.
    pub fn new(base_path: &str) -> (source: Self)
        ensures
            source.base() == base_path@,
            source.pending() == None::<PendingView>,
    {
        SourceFileBrowser { base_path: base_path.to_owned(), pending: None }
    }

    /// The number of the name last proposed for the file in hand.
    pub fn pending_attempt(&self) -> (attempt: Option<u32>)
        ensures
            match self.pending() {
                Some(p) => attempt == Some(p.attempt as u32),
                None => attempt == None::<u32>,
            },
    {
        match &self.pending {
            Some(p) => Some(p.attempt),
            None => None,
        }
    }

    /// Handles a file met in the source folder, with content key `hash`.
    /// A content already recorded in the target is not copied again;
    /// otherwise the file's destination is computed and proposed.
    pub fn on_file_entry(&mut self, target: &TargetFileBrowser, path: &str, hash: &[u8]) -> (step:
        CopyStep)
        requires
            target.wf(),
            target.preserves_paths() && !target.files().contains_key(hash@) ==> is_char_boundary(
                bytes_of(path@),
                bytes_of(old(self).base()).len() as int,
            ),
        ensures
            final(self).base() == old(self).base(),
            target.files().contains_key(hash@) ==> {
                &&& step is AlreadyPresent
                &&& final(self).pending() == None::<PendingView>
            },
            !target.files().contains_key(hash@) ==> {
                let intended = destination_path(
                    bytes_of(target.base()),
                    bytes_of(old(self).base()).len(),
                    bytes_of(path@),
                    target.preserves_paths(),
                );
                &&& step matches CopyStep::Probe(p) && p@ == intended
                &&& final(self).pending() == Some(
                    PendingView { hash: hash@, source: bytes_of(path@), intended, attempt: 0 },
                )
            },
    {
        if target.is_in_files(hash) {
            self.pending = None;
            return CopyStep::AlreadyPresent;
        }
        let path_bytes = path.as_bytes();
        let target_base = target.base_path.as_str().as_bytes();
        let mut intended: Vec<u8> = Vec::new();
        push_all(&mut intended, target_base);
        assert(intended@ =~= bytes_of(target.base()));
        if target.preserve_path {
            let skip = self.base_path.as_str().as_bytes().len();
            assert(skip <= path_bytes@.len());
            push_range(&mut intended, path_bytes, skip, path_bytes.len());
        } else {
            intended.push(SLASH);
            let name = get_file_name(path_bytes);
            push_all(&mut intended, name.as_slice());
        }
        assert(intended@ =~= destination_path(
            bytes_of(target.base()),
            bytes_of(self.base()).len(),
            bytes_of(path@),
            target.preserves_paths(),
        ));
        let probe = copy_bytes(intended.as_slice());
        self.pending = Some(
            PendingCopy {
                hash: copy_bytes(hash),
                source: copy_bytes(path_bytes),
                intended_dest: intended,
                attempt: 0,
            },
        );
        CopyStep::Probe(probe)
    }

    /// Takes the answer to the last probe: when the proposed path exists, the
    /// next numbered name is proposed; when it does not, the copy is recorded
    /// in the target and ordered.
    pub fn on_probe_result(&mut self, target: &mut TargetFileBrowser, exists: bool) -> (step: CopyStep)
        requires
            old(target).wf(),
            old(self).pending() is Some,
            exists ==> old(self).pending().unwrap().attempt < 0x7fff_ffff,
            !exists ==> has_separator(
                candidate_path(
                    old(self).pending().unwrap().intended,
                    old(self).pending().unwrap().attempt,
                ),
            ),
        ensures
            final(target).wf(),
            final(self).base() == old(self).base(),
            final(target).base() == old(target).base(),
            final(target).preserves_paths() == old(target).preserves_paths(),
            ({
                let p = old(self).pending().unwrap();
                if exists {
                    &&& final(target).files() == old(target).files()
                    &&& step matches CopyStep::Probe(next) && next@ == candidate_path(p.intended, p.attempt + 1)
                    &&& final(self).pending() == Some(PendingView { attempt: p.attempt + 1, ..p })
                } else {
                    let dest = forward_slashes(candidate_path(p.intended, p.attempt));
                    &&& final(target).files() == old(target).files().insert(p.hash, dest)
                    &&& step matches CopyStep::Copy(order) && order.source@ == forward_slashes(p.source)
                        && order.dest@ == dest && order.dest_dir@ == parent_dir(dest)
                    &&& final(self).pending() == None::<PendingView>
                }
            }),
    {
        proof {
            use_type_invariant(&*self);
        }
        let mut pending: Option<PendingCopy> = None;
        std::mem::swap(&mut pending, &mut self.pending);
        let mut p = match pending {
            Some(p) => p,
            None => {
                assert(false);
                return CopyStep::AlreadyPresent;
            },
        };
        if exists {
            p.attempt = p.attempt + 1;
            let next = make_candidate(p.intended_dest.as_slice(), p.attempt);
            self.pending = Some(p);
            CopyStep::Probe(next)
        } else {
            let dest = make_candidate(p.intended_dest.as_slice(), p.attempt);
            let order = target.add_to_file(p.hash.as_slice(), p.source.as_slice(), dest.as_slice());
            CopyStep::Copy(order)
        }
    }
}

/// The contents recorded in the target after source files with content keys
/// `keys` were handled in order, starting from the recorded contents
/// `present`: each key that was missing gets recorded when its file is
/// copied.
pub open spec fn present_after(present: Set<Seq<u8>>, keys: Seq<Seq<u8>>) -> Set<Seq<u8>>
    decreases keys.len(),
{
    if keys.len() == 0 {
        present
    } else {
        present_after(present, keys.drop_last()).insert(keys.last())
    }
}

/// The content keys of the copies made while source files with content keys
/// `keys` were handled in order, starting from the recorded contents
/// `present`: a file is copied exactly when its key is not recorded yet.
pub open spec fn copied_keys(present: Set<Seq<u8>>, keys: Seq<Seq<u8>>) -> Seq<Seq<u8>>
    decreases keys.len(),
{
    if keys.len() == 0 {
        Seq::empty()
    } else if present_after(present, keys.drop_last()).contains(keys.last()) {
        copied_keys(present, keys.drop_last())
    } else {
        copied_keys(present, keys.drop_last()).push(keys.last())
    }
}

/// One source file handled to the end changes the recorded contents as
/// `present_after` says: a file found present (`on_file_entry` answers
/// `AlreadyPresent`) leaves them as they are, and a copy (`on_probe_result`
/// answers `Copy`) records its key.
pub proof fn lemma_one_file_step(files: Map<Seq<u8>, Seq<u8>>, key: Seq<u8>, dest: Seq<u8>)
    ensures
        files.contains_key(key) ==> files.dom() == present_after(files.dom(), seq![key]),
        !files.contains_key(key) ==> files.insert(key, dest).dom() == present_after(
            files.dom(),
            seq![key],
        ),
{
    let one = seq![key];
    assert(one.drop_last() =~= Seq::<Seq<u8>>::empty());
    assert(one.last() == key);
    assert(present_after(files.dom(), one.drop_last()) == files.dom());
    assert(present_after(files.dom(), one) == files.dom().insert(key));
    assert(files.insert(key, dest).dom() =~= files.dom().insert(key));
    if files.contains_key(key) {
        assert(files.dom().insert(key) =~= files.dom());
    }
}

/// Only one copy of a content ends up in the target: over a whole pass over
/// the source folders, no content is copied twice, no content already in the
/// target is copied, every content met is recorded at the end, and the
/// recorded contents are the ones present before plus the ones copied.
pub proof fn lemma_each_content_copied_once(present: Set<Seq<u8>>, keys: Seq<Seq<u8>>)
    ensures
        copied_keys(present, keys).no_duplicates(),
        forall|i: int|
            0 <= i < copied_keys(present, keys).len() ==> !present.contains(
                #[trigger] copied_keys(present, keys)[i],
            ),
        forall|i: int| 0 <= i < keys.len() ==> present_after(present, keys).contains(#[trigger] keys[i]),
        present_after(present, keys) == present + copied_keys(present, keys).to_set(),
    decreases keys.len(),
{
    if keys.len() > 0 {
        let prev = keys.drop_last();
        let k = keys.last();
        lemma_each_content_copied_once(present, prev);
        let before = present_after(present, prev);
        let c0 = copied_keys(present, prev);
        assert forall|i: int| 0 <= i < keys.len() implies present_after(present, keys).contains(
            #[trigger] keys[i],
        ) by {
            if i < keys.len() - 1 {
                assert(prev[i] == keys[i]);
            }
        }
        if before.contains(k) {
            assert(before.insert(k) =~= before);
        } else {
            let c1 = c0.push(k);
            assert(!c0.contains(k)) by {
                if c0.contains(k) {
                    let j = choose|j: int| 0 <= j < c0.len() && c0[j] == k;
                    assert(c0.to_set().contains(c0[j]));
                }
            }
            assert(!present.contains(k));
            assert forall|a: int, b: int| 0 <= a < c1.len() && 0 <= b < c1.len() && a != b implies c1[a]
                != c1[b] by {
                if a == c0.len() {
                    assert(c1[b] == c0[b]);
                } else if b == c0.len() {
                    assert(c1[a] == c0[a]);
                }
            }
            assert(c1.to_set() =~= c0.to_set().insert(k)) by {
                assert forall|x: Seq<u8>| c1.to_set().contains(x) implies c0.to_set().insert(k).contains(x) by {
                    let j = choose|j: int| 0 <= j < c1.len() && c1[j] == x;
                    if j < c0.len() {
                        assert(c0[j] == x);
                    }
                }
                assert forall|x: Seq<u8>| c0.to_set().insert(k).contains(x) implies c1.to_set().contains(x) by {
                    if x == k {
                        assert(c1[c0.len() as int] == x);
                    } else {
                        let j = choose|j: int| 0 <= j < c0.len() && c0[j] == x;
                        assert(c1[j] == x);
                    }
                }
            }
            assert(before.insert(k) =~= present + c1.to_set());
        }
    }
}

/// Counts the files of a folder walk.
pub struct FileCounter {
    count: i32,
}

/// The number of files in all the walks of `listings`.
pub open spec fn total_files(listings: Seq<Vec<String>>) -> int
    decreases listings.len(),
{
    if listings.len() == 0 {
        0
    } else {
        total_files(listings.drop_last()) + listings.last()@.len()
    }
}

proof fn lemma_total_files_nonneg(listings: Seq<Vec<String>>)
    ensures
        total_files(listings) >= 0,
    decreases listings.len(),
{
    if listings.len() > 0 {
        lemma_total_files_nonneg(listings.drop_last());
    }
}

proof fn lemma_total_files_monotone(listings: Seq<Vec<String>>, i: int)
    requires
        0 <= i <= listings.len(),
    ensures
        total_files(listings.subrange(0, i)) <= total_files(listings),
    decreases listings.len() - i,
{
    if i < listings.len() {
        lemma_total_files_monotone(listings, i + 1);
        let prefix = listings.subrange(0, i + 1);
        assert(prefix.drop_last() =~= listings.subrange(0, i));
    } else {
        assert(listings.subrange(0, i) =~= listings);
    }
}

/// Counting a joined list of walks gives the counts of its parts added.
pub proof fn lemma_total_files_concat(a: Seq<Vec<String>>, b: Seq<Vec<String>>)
    ensures
        total_files(a + b) == total_files(a) + total_files(b),
    decreases b.len(),
{
    if b.len() == 0 {
        assert(a + b =~= a);
    } else {
        lemma_total_files_concat(a, b.drop_last());
        assert((a + b).drop_last() =~= a + b.drop_last());
        assert((a + b).last() == b.last());
    }
}

/// The order in which the walks are listed does not change the total.
pub proof fn lemma_total_files_permutation(a: Seq<Vec<String>>, b: Seq<Vec<String>>)
    requires
        a.to_multiset() == b.to_multiset(),
    ensures
        total_files(a) == total_files(b),
    decreases a.len(),
{
    broadcast use vstd::seq_lib::group_to_multiset_ensures;
    broadcast use vstd::multiset::group_multiset_axioms;

    if a.len() == 0 {
        assert(a.to_multiset().len() == a.len());
        assert(b.to_multiset().len() == b.len());
    } else {
        let x = a.last();
        let rest = a.drop_last();
        assert(a =~= rest.push(x));
        assert(a.to_multiset() =~= rest.to_multiset().insert(x));
        assert(b.to_multiset().count(x) > 0);
        assert(b.contains(x));
        let j = choose|j: int| 0 <= j < b.len() && b[j] == x;
        let b2 = b.remove(j);
        assert(b2.to_multiset() =~= b.to_multiset().remove(x));
        assert(rest.to_multiset() =~= a.to_multiset().remove(x));
        lemma_total_files_permutation(rest, b2);
        let left = b.subrange(0, j);
        let right = b.subrange(j + 1, b.len() as int);
        assert(b =~= left + (seq![x] + right));
        assert(b2 =~= left + right);
        lemma_total_files_concat(left, seq![x] + right);
        lemma_total_files_concat(seq![x], right);
        lemma_total_files_concat(left, right);
        let one = seq![x];
        assert(one.drop_last() =~= Seq::<Vec<String>>::empty());
        assert(total_files(one.drop_last()) == 0);
        assert(one.last() == x);
        assert(total_files(one) == x@.len());
    }
}

impl FileCounter {
    pub closed spec fn current(&self) -> int {
        self.count as int
    }

    /// A counter at zero.
    pub fn new() -> (counter: Self)
        ensures
            counter.current() == 0,
    {
        FileCounter { count: 0 }
    }

    /// One more file met.
    fn on_file_entry(&mut self)
        requires
            old(self).current() < i32::MAX,
        ensures
            final(self).current() == old(self).current() + 1,
    {
        self.count = self.count + 1;
    }

    /// Counts the files of one folder walk, starting from zero.
    pub fn count(&mut self, files: &Vec<String>) -> (n: i32)
        requires
            files@.len() <= i32::MAX,
        ensures
            n == files@.len(),
            final(self).current() == n,
    {
        self.count = 0;
        let mut i: usize = 0;
        while i < files.len()
            invariant
                i <= files@.len() <= i32::MAX,
                self.current() == i,
            decreases files@.len() - i,
        {
            self.on_file_entry();
            i = i + 1;
        }
        self.count
    }
}

/// The number of files in all the source walks of `listings`.
pub fn get_total_files(listings: &Vec<Vec<String>>) -> (total: i32)
    requires
        total_files(listings@) <= i32::MAX,
    ensures
        total == total_files(listings@),
{
    let mut counter = FileCounter::new();
    let mut total: i32 = 0;
    let mut i: usize = 0;
    while i < listings.len()
        invariant
            i <= listings@.len(),
            total_files(listings@) <= i32::MAX,
            total == total_files(listings@.subrange(0, i as int)),
        decreases listings@.len() - i,
    {
        proof {
            let prefix = listings@.subrange(0, i + 1);
            assert(prefix.drop_last() =~= listings@.subrange(0, i as int));
            lemma_total_files_monotone(listings@, i + 1);
            lemma_total_files_nonneg(listings@.subrange(0, i as int));
            assert(prefix.last() == listings@[i as int]);
        }
        let n = counter.count(&listings[i]);
        total = total + n;
        i = i + 1;
    }
    assert(listings@.subrange(0, listings@.len() as int) =~= listings@);
    total
}

} // verus!
