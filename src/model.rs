//! The in-memory archive: entries addressed by component paths, the
//! well-formedness invariant, and classification of tree paths.

use vstd::prelude::*;
use vstd::string::StrSliceExecFns;

verus! {

/// The kinds of failure surfaced by the library.
#[derive(Clone, Copy, Debug, PartialEq, Eq, Structural)]
pub enum PackError {
    BadFormat,
    BadEncoding,
    BadLength,
    BadName,
    Duplicate,
    NotFound,
    Unsupported,
    Empty,
}

/// The four-byte magic that selects the archive format version.
#[derive(Clone, Copy, Debug, PartialEq, Eq, Structural)]
pub enum PackFileId {
    Pfh5,
    Pfh4,
    Pfh3,
    Pfh0,
}

/// The `Mod` archive type.
pub const PACK_FILE_TYPE_MOD: u32 = 3;

/// A path as a sequence of component strings.
pub open spec fn path_view(p: Seq<String>) -> Seq<Seq<char>> {
    p.map_values(|s: String| s@)
}

/// `pre` is a prefix of `p` (possibly equal to it).
pub open spec fn starts_with(p: Seq<Seq<char>>, pre: Seq<Seq<char>>) -> bool {
    pre.len() <= p.len() && p.subrange(0, pre.len() as int) == pre
}

/// `pre` is a proper prefix of `p`.
pub open spec fn strictly_starts_with(p: Seq<Seq<char>>, pre: Seq<Seq<char>>) -> bool {
    pre.len() < p.len() && p.subrange(0, pre.len() as int) == pre
}

/// One packed file: its path inside the archive, its size, its index
/// timestamp and its bytes.
pub struct PackedFile {
    pub path: Vec<String>,
    pub size: u32,
    pub timestamp: u32,
    pub data: Vec<u8>,
}

/// The mathematical value of a `PackedFile`.
pub struct PackedFileView {
    pub path: Seq<Seq<char>>,
    pub size: u32,
    pub timestamp: u32,
    pub data: Seq<u8>,
}

impl View for PackedFile {
    type V = PackedFileView;

    open spec fn view(&self) -> PackedFileView {
        PackedFileView { path: path_view(self.path@), size: self.size, timestamp: self.timestamp, data: self.data@ }
    }
}

/// An archive: its header fields, the names of the archives it depends on,
/// its entries in on-disk order, and the name it is shown under.
pub struct PackFile {
    pub id: PackFileId,
    pub pack_file_type: u32,
    pub bitmask: u32,
    pub creation_time: u32,
    pub parents: Vec<String>,
    pub packed_files: Vec<PackedFile>,
    pub file_name: String,
}

/// The mathematical value of a `PackFile`.
pub struct PackFileView {
    pub id: PackFileId,
    pub pack_file_type: u32,
    pub bitmask: u32,
    pub creation_time: u32,
    pub parents: Seq<Seq<char>>,
    pub entries: Seq<PackedFileView>,
    pub name: Seq<char>,
}

pub open spec fn entries_view(es: Seq<PackedFile>) -> Seq<PackedFileView> {
    es.map_values(|e: PackedFile| e@)
}

impl View for PackFile {
    type V = PackFileView;

    open spec fn view(&self) -> PackFileView {
        PackFileView {
            id: self.id,
            pack_file_type: self.pack_file_type,
            bitmask: self.bitmask,
            creation_time: self.creation_time,
            parents: path_view(self.parents@),
            entries: entries_view(self.packed_files@),
            name: self.file_name@,
        }
    }
}

/// An entry whose size matches its bytes and whose path is not empty.
pub open spec fn entry_wf(e: PackedFileView) -> bool {
    &&& e.size as int == e.data.len()
    &&& e.path.len() > 0
}

/// No two entries share a path.
pub open spec fn paths_unique(es: Seq<PackedFileView>) -> bool {
    forall|i: int, j: int|
        0 <= i < es.len() && 0 <= j < es.len() && i != j ==> #[trigger] es[i].path != #[trigger] es[j].path
}

pub open spec fn entries_wf(es: Seq<PackedFileView>) -> bool {
    &&& forall|i: int| 0 <= i < es.len() ==> entry_wf(#[trigger] es[i])
    &&& paths_unique(es)
}

/// Some entry has exactly path `p`.
pub open spec fn path_exists(es: Seq<PackedFileView>, p: Seq<Seq<char>>) -> bool {
    exists|i: int| 0 <= i < es.len() && #[trigger] es[i].path == p
}

/// Some entry lies strictly below `p`.
pub open spec fn folder_exists(es: Seq<PackedFileView>, p: Seq<Seq<char>>) -> bool {
    exists|i: int| 0 <= i < es.len() && strictly_starts_with(#[trigger] es[i].path, p)
}

/// What a tree path designates in an archive.
pub enum PathKind {
    Nothing,
    File(int),
    Folder,
    Root,
}

/// Classification of a tree path: an entry with exactly that path; else a
/// folder holding at least one entry; else the archive itself, named by its
/// display name alone; else nothing.
pub open spec fn kind_of(pf: PackFileView, p: Seq<Seq<char>>) -> PathKind {
    if p.len() == 0 {
        PathKind::Nothing
    } else if path_exists(pf.entries, p) {
        PathKind::File(choose|i: int| 0 <= i < pf.entries.len() && pf.entries[i].path == p)
    } else if folder_exists(pf.entries, p) {
        PathKind::Folder
    } else if p.len() == 1 && p[0] == pf.name {
        PathKind::Root
    } else {
        PathKind::Nothing
    }
}

/// The executable classification of a tree path.
#[derive(Clone, Copy, Debug, PartialEq, Eq, Structural)]
pub enum TreePathType {
    NoPath,
    File(usize),
    Folder,
    PackFile,
}

impl TreePathType {
    pub open spec fn kind(self) -> PathKind {
        match self {
            TreePathType::NoPath => PathKind::Nothing,
            TreePathType::File(i) => PathKind::File(i as int),
            TreePathType::Folder => PathKind::Folder,
            TreePathType::PackFile => PathKind::Root,
        }
    }
}

/// Two paths are equal component by component.
pub fn path_eq(a: &[String], b: &[String]) -> (r: bool)
    ensures
        r == (path_view(a@) == path_view(b@)),
{
    if a.len() != b.len() {
        return false;
    }
    let mut i: usize = 0;
    while i < a.len()
        invariant
            a.len() == b.len(),
            0 <= i <= a.len(),
            forall|j: int| 0 <= j < i ==> a@[j]@ == b@[j]@,
        decreases a.len() - i,
    {
        if !(a[i] == b[i]) {
            assert(path_view(a@)[i as int] != path_view(b@)[i as int]);
            return false;
        }
        i += 1;
    }
    assert(path_view(a@) =~= path_view(b@));
    true
}

/// `pre` is a prefix of `p`.
pub fn path_starts_with(p: &[String], pre: &[String]) -> (r: bool)
    ensures
        r == starts_with(path_view(p@), path_view(pre@)),
{
    if pre.len() > p.len() {
        return false;
    }
    let mut i: usize = 0;
    while i < pre.len()
        invariant
            pre.len() <= p.len(),
            0 <= i <= pre.len(),
            forall|j: int| 0 <= j < i ==> p@[j]@ == pre@[j]@,
        decreases pre.len() - i,
    {
        if !(p[i] == pre[i]) {
            assert(path_view(p@).subrange(0, pre.len() as int)[i as int] != path_view(pre@)[i as int]);
            return false;
        }
        i += 1;
    }
    assert(path_view(p@).subrange(0, pre.len() as int) =~= path_view(pre@));
    true
}

/// `pre` is a proper prefix of `p`.
pub fn path_strictly_starts_with(p: &[String], pre: &[String]) -> (r: bool)
    ensures
        r == strictly_starts_with(path_view(p@), path_view(pre@)),
{
    pre.len() < p.len() && path_starts_with(p, pre)
}

/// A copy of a path.
pub fn copy_path(p: &[String]) -> (r: Vec<String>)
    ensures
        path_view(r@) == path_view(p@),
{
    let mut r: Vec<String> = Vec::new();
    let mut i: usize = 0;
    while i < p.len()
        invariant
            0 <= i <= p.len(),
            r@.len() == i,
            forall|j: int| 0 <= j < i ==> #[trigger] r@[j]@ == p@[j]@,
        decreases p.len() - i,
    {
        let s = p[i].clone();
        r.push(s);
        i += 1;
    }
    assert(path_view(r@) =~= path_view(p@));
    r
}

impl PackFile {
    pub open spec fn wf(&self) -> bool {
        entries_wf(self@.entries)
    }

    /// Whether some entry has exactly the path `p`.
    pub fn packedfile_exists(&self, p: &[String]) -> (r: bool)
        ensures
            r == path_exists(self@.entries, path_view(p@)),
    {
        let mut i: usize = 0;
        while i < self.packed_files.len()
            invariant
                0 <= i <= self.packed_files.len(),
                forall|j: int| 0 <= j < i ==> self@.entries[j].path != path_view(p@),
            decreases self.packed_files.len() - i,
        {
            if path_eq(self.packed_files[i].path.as_slice(), p) {
                assert(self@.entries[i as int].path == path_view(p@));
                return true;
            }
            i += 1;
        }
        false
    }

    /// Whether some entry lies strictly below the folder `p`.
    pub fn folder_exists(&self, p: &[String]) -> (r: bool)
        ensures
            r == folder_exists(self@.entries, path_view(p@)),
    {
        let mut i: usize = 0;
        while i < self.packed_files.len()
            invariant
                0 <= i <= self.packed_files.len(),
                forall|j: int| 0 <= j < i ==> !strictly_starts_with(#[trigger] self@.entries[j].path, path_view(p@)),
            decreases self.packed_files.len() - i,
        {
            if path_strictly_starts_with(self.packed_files[i].path.as_slice(), p) {
                assert(strictly_starts_with(self@.entries[i as int].path, path_view(p@)));
                return true;
            }
            i += 1;
        }
        false
    }

    /// Classifies a tree path against this archive.
    pub fn classify(&self, p: &[String]) -> (r: TreePathType)
        requires
            self.wf(),
        ensures
            r.kind() == kind_of(self@, path_view(p@)),
            r matches TreePathType::File(i) ==> i < self.packed_files.len(),
    {
        if p.len() == 0 {
            return TreePathType::NoPath;
        }
        let mut i: usize = 0;
        while i < self.packed_files.len()
            invariant
                self.wf(),
                p.len() > 0,
                0 <= i <= self.packed_files.len(),
                forall|j: int| 0 <= j < i ==> self@.entries[j].path != path_view(p@),
            decreases self.packed_files.len() - i,
        {
            if path_eq(self.packed_files[i].path.as_slice(), p) {
                let ghost es = self@.entries;
                assert(es[i as int].path == path_view(p@));
                let ghost c = choose|k: int| 0 <= k < es.len() && es[k].path == path_view(p@);
                assert(c == i as int);
                return TreePathType::File(i);
            }
            i += 1;
        }
        assert(!path_exists(self@.entries, path_view(p@)));
        if self.folder_exists(p) {
            TreePathType::Folder
        } else if p.len() == 1 && p[0] == self.file_name {
            TreePathType::PackFile
        } else {
            TreePathType::NoPath
        }
    }
}

/// The entries `ns` can be appended to `es`: no path of `ns` is taken in
/// `es`, and no two entries of `ns` share a path.
pub open spec fn can_add(es: Seq<PackedFileView>, ns: Seq<PackedFileView>) -> bool {
    &&& forall|i: int| 0 <= i < ns.len() ==> !path_exists(es, #[trigger] ns[i].path)
    &&& paths_unique(ns)
}

pub open spec fn with_entries(v: PackFileView, es: Seq<PackedFileView>) -> PackFileView {
    PackFileView { entries: es, ..v }
}

pub proof fn lemma_entries_view_append(a: Seq<PackedFile>, b: Seq<PackedFile>)
    ensures
        entries_view(a + b) == entries_view(a) + entries_view(b),
{
    assert(entries_view(a + b) =~= entries_view(a) + entries_view(b));
}

pub proof fn lemma_append_wf(es: Seq<PackedFileView>, ns: Seq<PackedFileView>)
    requires
        entries_wf(es),
        forall|i: int| 0 <= i < ns.len() ==> entry_wf(#[trigger] ns[i]),
        can_add(es, ns),
    ensures
        entries_wf(es + ns),
{
    let all = es + ns;
    assert forall|i: int, j: int|
        0 <= i < all.len() && 0 <= j < all.len() && i != j implies #[trigger] all[i].path != #[trigger] all[j].path by {
        if i < es.len() && j >= es.len() {
            assert(!path_exists(es, ns[j - es.len()].path));
            assert(es[i].path == all[i].path);
        } else if j < es.len() && i >= es.len() {
            assert(!path_exists(es, ns[i - es.len()].path));
            assert(es[j].path == all[j].path);
        }
    }
    assert forall|i: int| 0 <= i < all.len() implies entry_wf(#[trigger] all[i]) by {
        if i >= es.len() {
            assert(all[i] == ns[i - es.len()]);
        }
    }
}

proof fn lemma_remove_wf(es: Seq<PackedFileView>, i: int)
    requires
        entries_wf(es),
        0 <= i < es.len(),
    ensures
        entries_wf(es.remove(i)),
{
    let out = es.remove(i);
    assert forall|a: int, b: int|
        0 <= a < out.len() && 0 <= b < out.len() && a != b implies #[trigger] out[a].path != #[trigger] out[b].path by {
        let ia = if a < i { a } else { a + 1 };
        let ib = if b < i { b } else { b + 1 };
        assert(out[a] == es[ia] && out[b] == es[ib]);
    }
    assert forall|a: int| 0 <= a < out.len() implies entry_wf(#[trigger] out[a]) by {
        let ia = if a < i { a } else { a + 1 };
        assert(out[a] == es[ia]);
    }
}

impl PackFile {
    /// Removes the entry at `index`, keeping the others in order.
    pub fn remove_packedfile(&mut self, index: usize)
        requires
            old(self).wf(),
            index < old(self).packed_files.len(),
        ensures
            final(self).wf(),
            final(self)@ == with_entries(old(self)@, old(self)@.entries.remove(index as int)),
    {
        self.packed_files.remove(index);
        proof {
            lemma_remove_wf(old(self)@.entries, index as int);
        }
        assert(self@.entries =~= old(self)@.entries.remove(index as int));
    }

    /// Removes every entry.
    pub fn remove_all_packedfiles(&mut self)
        requires
            old(self).wf(),
        ensures
            final(self).wf(),
            final(self)@ == with_entries(old(self)@, Seq::empty()),
    {
        self.packed_files.clear();
        assert(self@.entries =~= Seq::empty());
    }

    /// Appends `new` to the entries when none of their paths is taken and
    /// they are pairwise distinct; otherwise fails with `Duplicate` and
    /// leaves the archive as it was.
    pub fn add_packedfiles(&mut self, new: Vec<PackedFile>) -> (r: Result<(), PackError>)
        requires
            old(self).wf(),
            forall|i: int| 0 <= i < new@.len() ==> entry_wf(#[trigger] new@[i]@),
        ensures
            final(self).wf(),
            r is Ok <==> can_add(old(self)@.entries, entries_view(new@)),
            r is Ok ==> final(self)@ == with_entries(old(self)@, old(self)@.entries + entries_view(new@)),
            r is Err ==> r == Err::<(), PackError>(PackError::Duplicate) && final(self)@ == old(self)@,
    {
        let ghost ns = entries_view(new@);
        let mut i: usize = 0;
        while i < new.len()
            invariant
                0 <= i <= new.len(),
                self.wf(),
                self@ == old(self)@,
                ns == entries_view(new@),
                forall|k: int| 0 <= k < i ==> !path_exists(self@.entries, #[trigger] ns[k].path),
                forall|k: int, l: int| 0 <= k < i && 0 <= l < i && k != l ==> #[trigger] ns[k].path != #[trigger] ns[l].path,
            decreases new.len() - i,
        {
            if self.packedfile_exists(new[i].path.as_slice()) {
                assert(path_exists(self@.entries, ns[i as int].path));
                return Err(PackError::Duplicate);
            }
            let mut j: usize = 0;
            while j < i
                invariant
                    0 <= j <= i < new.len(),
                    self.wf(),
                    self@ == old(self)@,
                    ns == entries_view(new@),
                    forall|l: int| 0 <= l < j ==> ns[l].path != ns[i as int].path,
                decreases i - j,
            {
                if path_eq(new[j].path.as_slice(), new[i].path.as_slice()) {
                    assert(ns[j as int].path == ns[i as int].path);
                    return Err(PackError::Duplicate);
                }
                j += 1;
            }
            i += 1;
        }
        assert(can_add(self@.entries, ns));
        let ghost before = self.packed_files@;
        let ghost added = new@;
        let mut new = new;
        self.packed_files.append(&mut new);
        proof {
            lemma_entries_view_append(before, added);
            lemma_append_wf(entries_view(before), ns);
        }
        Ok(())
    }
}

/// `s` ends with `suffix`.
pub open spec fn ends_with_chars(s: Seq<char>, suffix: Seq<char>) -> bool {
    suffix.len() <= s.len() && s.subrange(s.len() - suffix.len(), s.len() as int) == suffix
}

/// Whether `s` ends with `suffix`.
pub fn str_ends_with(s: &str, suffix: &str) -> (r: bool)
    ensures
        r == ends_with_chars(s@, suffix@),
{
    let n = s.unicode_len();
    let m = suffix.unicode_len();
    if m > n {
        return false;
    }
    let off = n - m;
    let mut j: usize = 0;
    while j < m
        invariant
            n == s@.len(),
            m == suffix@.len(),
            off == n - m,
            0 <= j <= m,
            forall|t: int| 0 <= t < j ==> s@[off + t] == suffix@[t],
        decreases m - j,
    {
        if s.get_char(off + j) != suffix.get_char(j) {
            assert(s@.subrange(off as int, n as int)[j as int] != suffix@[j as int]);
            return false;
        }
        j += 1;
    }
    assert(s@.subrange(off as int, n as int) =~= suffix@);
    true
}

} // verus!
