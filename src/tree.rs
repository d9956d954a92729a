//! Operations on the entry namespace of an archive: creation, replacing an
//! entry's bytes, deletion, renaming and copying between archives.

use vstd::prelude::*;
use vstd::string::{StrSliceExecFns, StringExecFns};
use crate::model::{
    PackError, PackFile, PackFileId, PackFileView, PackedFile, PackedFileView, PathKind,
    TreePathType, PACK_FILE_TYPE_MOD, can_add, entries_view, entries_wf, entry_wf,
    folder_exists, kind_of, path_exists, path_view, starts_with, strictly_starts_with,
    with_entries,
};

verus! {

/// A fresh, empty `Mod` archive shown under `file_name`.
pub fn new_packfile(file_name: String, packfile_id: PackFileId) -> (r: PackFile)
    ensures
        r.wf(),
        r@ == (PackFileView {
            id: packfile_id,
            pack_file_type: PACK_FILE_TYPE_MOD,
            bitmask: 0,
            creation_time: 0,
            parents: Seq::empty(),
            entries: Seq::empty(),
            name: file_name@,
        }),
{
    let r = PackFile {
        id: packfile_id,
        pack_file_type: PACK_FILE_TYPE_MOD,
        bitmask: 0,
        creation_time: 0,
        parents: Vec::new(),
        packed_files: Vec::new(),
        file_name,
    };
    assert(r@.parents =~= Seq::empty());
    assert(r@.entries =~= Seq::empty());
    r
}

/// The entry `e` holding `d` as its bytes.
pub open spec fn with_data(e: PackedFileView, d: Seq<u8>) -> PackedFileView {
    PackedFileView { data: d, size: d.len() as u32, ..e }
}

/// Replaces the bytes of the entry at `index` with `data` and sets its size
/// to their length.
pub fn update_packed_file_data_text(data: &[u8], pack_file: &mut PackFile, index: usize)
    requires
        old(pack_file).wf(),
        index < old(pack_file).packed_files.len(),
        data@.len() <= u32::MAX,
    ensures
        final(pack_file).wf(),
        final(pack_file)@ == with_entries(
            old(pack_file)@,
            old(pack_file)@.entries.update(index as int, with_data(old(pack_file)@.entries[index as int], data@)),
        ),
{
    replace_data(pack_file, index, vstd::slice::slice_to_vec(data));
}

/// Moves `data` into the entry at `index`.
pub fn replace_data(pack_file: &mut PackFile, index: usize, data: Vec<u8>)
    requires
        old(pack_file).wf(),
        index < old(pack_file).packed_files.len(),
        data@.len() <= u32::MAX,
    ensures
        final(pack_file).wf(),
        final(pack_file)@ == with_entries(
            old(pack_file)@,
            old(pack_file)@.entries.update(index as int, with_data(old(pack_file)@.entries[index as int], data@)),
        ),
{
    let ghost d = data@;
    let ghost es = old(pack_file)@.entries;
    let mut e = pack_file.packed_files.remove(index);
    e.size = data.len() as u32;
    e.data = data;
    pack_file.packed_files.insert(index, e);
    let ghost want = es.update(index as int, with_data(es[index as int], d));
    assert(pack_file@.entries =~= want);
    assert(pack_file@.entries[index as int].path == es[index as int].path);
    assert forall|i: int, j: int|
        0 <= i < want.len() && 0 <= j < want.len() && i != j implies #[trigger] want[i].path != #[trigger] want[j].path by {
        assert(want[i].path == es[i].path);
        assert(want[j].path == es[j].path);
    }
    assert forall|i: int| 0 <= i < want.len() implies entry_wf(#[trigger] want[i]) by {
        assert(entry_wf(es[i]));
    }
}

/// The entries of `es` that do not lie at or below `p`, in their order.
pub open spec fn drop_under(es: Seq<PackedFileView>, p: Seq<Seq<char>>) -> Seq<PackedFileView>
    decreases es.len(),
{
    if es.len() == 0 {
        es
    } else {
        let rest = drop_under(es.drop_last(), p);
        if starts_with(es.last().path, p) {
            rest
        } else {
            rest.push(es.last())
        }
    }
}

/// Deleting a folder keeps exactly the entries whose path does not start
/// with the folder's path, in their order.
pub proof fn lemma_drop_under_is_filter(es: Seq<PackedFileView>, p: Seq<Seq<char>>)
    ensures
        drop_under(es, p) == es.filter(|e: PackedFileView| !starts_with(e.path, p)),
    decreases es.len(),
{
    reveal(Seq::filter);
    if es.len() > 0 {
        lemma_drop_under_is_filter(es.drop_last(), p);
    }
}

proof fn lemma_drop_under_push(s: Seq<PackedFileView>, x: PackedFileView, p: Seq<Seq<char>>)
    ensures
        drop_under(s.push(x), p) == if starts_with(x.path, p) {
            drop_under(s, p)
        } else {
            drop_under(s, p).push(x)
        },
{
    assert(s.push(x).drop_last() =~= s);
    assert(s.push(x).last() == x);
}

proof fn lemma_drop_under(es: Seq<PackedFileView>, p: Seq<Seq<char>>)
    requires
        entries_wf(es),
    ensures
        entries_wf(drop_under(es, p)),
        forall|x: PackedFileView| drop_under(es, p).contains(x) ==> es.contains(x),
    decreases es.len(),
{
    if es.len() > 0 {
        let init = es.drop_last();
        assert(entries_wf(init)) by {
            assert forall|i: int, j: int|
                0 <= i < init.len() && 0 <= j < init.len() && i != j implies #[trigger] init[i].path != #[trigger] init[j].path by {
                assert(init[i] == es[i] && init[j] == es[j]);
            }
            assert forall|i: int| 0 <= i < init.len() implies entry_wf(#[trigger] init[i]) by {
                assert(init[i] == es[i]);
            }
        }
        lemma_drop_under(init, p);
        let rest = drop_under(init, p);
        let last = es.last();
        assert forall|x: PackedFileView| rest.contains(x) implies es.contains(x) by {
            assert(init.contains(x));
            let k = choose|k: int| 0 <= k < init.len() && init[k] == x;
            assert(es[k] == x);
        }
        if !starts_with(last.path, p) {
            let out = rest.push(last);
            assert forall|i: int, j: int|
                0 <= i < out.len() && 0 <= j < out.len() && i != j implies #[trigger] out[i].path != #[trigger] out[j].path by {
                if i == rest.len() && j < rest.len() {
                    assert(rest.contains(out[j]));
                    assert(init.contains(out[j]));
                    let k = choose|k: int| 0 <= k < init.len() && init[k] == out[j];
                    assert(es[k] == out[j]);
                    assert(es[es.len() - 1] == out[i]);
                } else if j == rest.len() && i < rest.len() {
                    assert(rest.contains(out[i]));
                    assert(init.contains(out[i]));
                    let k = choose|k: int| 0 <= k < init.len() && init[k] == out[i];
                    assert(es[k] == out[i]);
                    assert(es[es.len() - 1] == out[j]);
                } else if i < rest.len() && j < rest.len() {
                    assert(out[i] == rest[i] && out[j] == rest[j]);
                }
            }
            assert forall|i: int| 0 <= i < out.len() implies entry_wf(#[trigger] out[i]) by {
                if i < rest.len() {
                    assert(out[i] == rest[i]);
                } else {
                    assert(out[i] == es[es.len() - 1]);
                }
            }
            assert forall|x: PackedFileView| out.contains(x) implies es.contains(x) by {
                let k = choose|k: int| 0 <= k < out.len() && out[k] == x;
                if k < rest.len() {
                    assert(rest.contains(x));
                } else {
                    assert(es[es.len() - 1] == x);
                }
            }
        }
    }
}

/// Removes every entry at or below `p`, keeping the others in order.
fn remove_under(pack_file: &mut PackFile, p: &[String])
    requires
        old(pack_file).wf(),
    ensures
        final(pack_file).wf(),
        final(pack_file)@ == with_entries(old(pack_file)@, drop_under(old(pack_file)@.entries, path_view(p@))),
{
    let ghost es = old(pack_file)@.entries;
    let ghost pv = path_view(p@);
    let mut i: usize = 0;
    let ghost mut k: int = 0;
    assert(drop_under(es.subrange(0, 0), pv) =~= Seq::<PackedFileView>::empty());
    assert(drop_under(es.subrange(0, 0), pv) + es.subrange(0, es.len() as int) =~= es);
    assert(with_entries(old(pack_file)@, es) == old(pack_file)@);
    while i < pack_file.packed_files.len()
        invariant
            pv == path_view(p@),
            es == old(pack_file)@.entries,
            0 <= k <= es.len(),
            i == drop_under(es.subrange(0, k), pv).len(),
            pack_file.packed_files.len() == i + (es.len() - k),
            pack_file@ == with_entries(old(pack_file)@, drop_under(es.subrange(0, k), pv) + es.subrange(k, es.len() as int)),
        decreases es.len() - k,
    {
        let ghost kept = drop_under(es.subrange(0, k), pv);
        let ghost pre = es.subrange(0, k + 1);
        assert(pack_file@.entries[i as int] == es[k]);
        assert(pre =~= es.subrange(0, k).push(es[k]));
        proof {
            lemma_drop_under_push(es.subrange(0, k), es[k], pv);
        }
        assert(pack_file.packed_files@[i as int]@ == es[k]);
        assert(path_view(pack_file.packed_files@[i as int].path@) == es[k].path);
        let under = crate::model::path_starts_with(pack_file.packed_files[i].path.as_slice(), p);
        if under {
            let ghost cur = pack_file.packed_files@;
            pack_file.packed_files.remove(i);
            assert(entries_view(pack_file.packed_files@) =~= entries_view(cur).remove(i as int));
            assert(drop_under(pre, pv) == kept);
            assert(pack_file@.entries =~= kept + es.subrange(k + 1, es.len() as int));
        } else {
            i += 1;
            assert(drop_under(pre, pv) == kept.push(es[k]));
            assert(pack_file@.entries =~= kept.push(es[k]) + es.subrange(k + 1, es.len() as int));
        }
        proof {
            k = k + 1;
        }
    }
    assert(es.subrange(k, es.len() as int) =~= Seq::<PackedFileView>::empty());
    assert(es.subrange(0, k) =~= es);
    assert(pack_file@.entries =~= drop_under(es, pv));
    proof {
        lemma_drop_under(es, pv);
    }
}

/// Every entry left after a delete was an entry before it: the entry
/// removed by index, the folder's entries filtered out in order, or all of
/// them.
pub proof fn lemma_delete_keeps_old_entries(v: PackFileView, p: Seq<Seq<char>>)
    requires
        entries_wf(v.entries),
    ensures
        match kind_of(v, p) {
            PathKind::File(i) => forall|x: PackedFileView| v.entries.remove(i).contains(x) ==> v.entries.contains(x),
            PathKind::Folder => forall|x: PackedFileView| drop_under(v.entries, p).contains(x) ==> v.entries.contains(x),
            _ => true,
        },
{
    match kind_of(v, p) {
        PathKind::File(i) => {
            if path_exists(v.entries, p) {
                assert forall|x: PackedFileView| v.entries.remove(i).contains(x) implies v.entries.contains(x) by {
                    let k = choose|k: int| 0 <= k < v.entries.remove(i).len() && v.entries.remove(i)[k] == x;
                    if k < i {
                        assert(v.entries[k] == x);
                    } else {
                        assert(v.entries[k + 1] == x);
                    }
                }
            }
        },
        PathKind::Folder => {
            lemma_drop_under(v.entries, p);
        },
        _ => {},
    }
}

/// Deletes what `tree_path` designates: the entry with that path, every
/// entry in that folder, or every entry when it names the archive itself.
pub fn delete_from_packfile(pack_file: &mut PackFile, tree_path: &[String]) -> (r: Result<(), PackError>)
    requires
        old(pack_file).wf(),
    ensures
        final(pack_file).wf(),
        match kind_of(old(pack_file)@, path_view(tree_path@)) {
            PathKind::Nothing => r == Err::<(), PackError>(PackError::NotFound) && final(pack_file)@ == old(pack_file)@,
            PathKind::File(i) => r is Ok
                && final(pack_file)@ == with_entries(old(pack_file)@, old(pack_file)@.entries.remove(i)),
            PathKind::Folder => r is Ok
                && final(pack_file)@ == with_entries(old(pack_file)@, drop_under(old(pack_file)@.entries, path_view(tree_path@))),
            PathKind::Root => r is Ok && final(pack_file)@ == with_entries(old(pack_file)@, Seq::empty()),
        },
{
    match pack_file.classify(tree_path) {
        TreePathType::File(i) => {
            pack_file.remove_packedfile(i);
            Ok(())
        },
        TreePathType::Folder => {
            remove_under(pack_file, tree_path);
            Ok(())
        },
        TreePathType::PackFile => {
            pack_file.remove_all_packedfiles();
            Ok(())
        },
        TreePathType::NoPath => Err(PackError::NotFound),
    }
}

/// Unicode `White_Space`, the set that `char::is_whitespace` tests.
pub open spec fn is_white_space(c: char) -> bool {
    let u = c as u32;
    u == 0x20 || (0x09 <= u && u <= 0x0d) || u == 0x85 || u == 0xa0 || u == 0x1680
        || (0x2000 <= u && u <= 0x200a) || u == 0x2028 || u == 0x2029 || u == 0x202f
        || u == 0x205f || u == 0x3000
}

/// A name that an entry or a folder can take: not empty, with no path
/// separator and no white space.
pub open spec fn valid_name(n: Seq<char>) -> bool {
    &&& n.len() > 0
    &&& forall|i: int| 0 <= i < n.len() ==> #[trigger] n[i] != '/' && !is_white_space(n[i])
}

fn char_is_white_space(c: char) -> (r: bool)
    ensures
        r == is_white_space(c),
{
    let u = c as u32;
    u == 0x20 || (0x09 <= u && u <= 0x0d) || u == 0x85 || u == 0xa0 || u == 0x1680
        || (0x2000 <= u && u <= 0x200a) || u == 0x2028 || u == 0x2029 || u == 0x202f
        || u == 0x205f || u == 0x3000
}

/// Whether `n` is a valid name for an entry or a folder.
pub fn is_valid_name(n: &str) -> (r: bool)
    ensures
        r == valid_name(n@),
{
    let len = n.unicode_len();
    if len == 0 {
        return false;
    }
    let mut i: usize = 0;
    while i < len
        invariant
            len == n@.len(),
            0 <= i <= len,
            forall|j: int| 0 <= j < i ==> #[trigger] n@[j] != '/' && !is_white_space(n@[j]),
        decreases len - i,
    {
        let c = n.get_char(i);
        if c == '/' || char_is_white_space(c) {
            return false;
        }
        i += 1;
    }
    true
}

/// Whether two strings hold the same characters.
pub fn str_eq(a: &str, b: &str) -> (r: bool)
    ensures
        r == (a@ == b@),
{
    let len = a.unicode_len();
    if len != b.unicode_len() {
        return false;
    }
    let mut i: usize = 0;
    while i < len
        invariant
            len == a@.len(),
            len == b@.len(),
            0 <= i <= len,
            forall|j: int| 0 <= j < i ==> a@[j] == b@[j],
        decreases len - i,
    {
        if a.get_char(i) != b.get_char(i) {
            return false;
        }
        i += 1;
    }
    assert(a@ =~= b@);
    true
}

/// The path `p` with its last component replaced by `name`.
pub open spec fn renamed_path(p: Seq<Seq<char>>, name: Seq<char>) -> Seq<Seq<char>> {
    p.drop_last().push(name)
}

pub open spec fn with_path(e: PackedFileView, q: Seq<Seq<char>>) -> PackedFileView {
    PackedFileView { path: q, ..e }
}

/// Every entry below the folder `p` with the folder's own component
/// replaced by `name`.
pub open spec fn rename_under(es: Seq<PackedFileView>, p: Seq<Seq<char>>, name: Seq<char>) -> Seq<PackedFileView> {
    Seq::new(
        es.len(),
        |j: int|
            if strictly_starts_with(es[j].path, p) {
                with_path(es[j], es[j].path.update(p.len() - 1, name))
            } else {
                es[j]
            },
    )
}

proof fn lemma_rename_under_wf(es: Seq<PackedFileView>, p: Seq<Seq<char>>, name: Seq<char>)
    requires
        entries_wf(es),
        p.len() > 0,
        !folder_exists(es, renamed_path(p, name)),
    ensures
        entries_wf(rename_under(es, p, name)),
{
    let out = rename_under(es, p, name);
    let q = renamed_path(p, name);
    let k = p.len() - 1;
    assert forall|a: int, b: int|
        0 <= a < out.len() && 0 <= b < out.len() && a != b implies #[trigger] out[a].path != #[trigger] out[b].path by {
        let ua = strictly_starts_with(es[a].path, p);
        let ub = strictly_starts_with(es[b].path, p);
        if ua && ub {
            if out[a].path == out[b].path {
                assert(out[a].path.len() == es[a].path.len());
                assert(out[b].path.len() == es[b].path.len());
                assert(es[a].path.subrange(0, p.len() as int)[k] == p[k]);
                assert(es[b].path.subrange(0, p.len() as int)[k] == p[k]);
                assert(es[a].path[k] == p[k]);
                assert(es[b].path[k] == p[k]);
                assert forall|t: int| 0 <= t < es[a].path.len() implies es[a].path[t] == es[b].path[t] by {
                    if t != k {
                        assert(out[a].path[t] == es[a].path[t]);
                        assert(out[b].path[t] == es[b].path[t]);
                    }
                }
                assert(es[a].path =~= es[b].path);
            }
        } else if ua && !ub {
            assert(out[a].path.subrange(0, p.len() as int) =~= q);
            if out[a].path == es[b].path {
                assert(strictly_starts_with(es[b].path, q));
            }
        } else if !ua && ub {
            assert(out[b].path.subrange(0, p.len() as int) =~= q);
            if out[b].path == es[a].path {
                assert(strictly_starts_with(es[a].path, q));
            }
        }
    }
    assert forall|a: int| 0 <= a < out.len() implies entry_wf(#[trigger] out[a]) by {
        assert(entry_wf(es[a]));
    }
}

/// Renames what `tree_path` designates to `new_name`: the last component
/// of an entry's path, the component of a folder in every path below it,
/// or the display name of the archive.
pub fn rename_packed_file(pack_file: &mut PackFile, tree_path: &[String], new_name: &str) -> (r: Result<(), PackError>)
    requires
        old(pack_file).wf(),
    ensures
        final(pack_file).wf(),
        r is Err ==> final(pack_file)@ == old(pack_file)@,
        final(pack_file)@.entries.len() == old(pack_file)@.entries.len(),
        ({
            let p = path_view(tree_path@);
            let es = old(pack_file)@.entries;
            let q = renamed_path(p, new_name@);
            if p.len() == 0 {
                r == Err::<(), PackError>(PackError::NotFound)
            } else if new_name@ == p.last() || !valid_name(new_name@) {
                r == Err::<(), PackError>(PackError::BadName)
            } else {
                match kind_of(old(pack_file)@, p) {
                    PathKind::Nothing => r == Err::<(), PackError>(PackError::NotFound),
                    PathKind::Root => r is Ok && final(pack_file)@ == (PackFileView { name: new_name@, ..old(pack_file)@ }),
                    PathKind::File(i) => if path_exists(es, q) {
                        r == Err::<(), PackError>(PackError::Duplicate)
                    } else {
                        r is Ok && final(pack_file)@ == with_entries(old(pack_file)@, es.update(i, with_path(es[i], q)))
                    },
                    PathKind::Folder => if folder_exists(es, q) {
                        r == Err::<(), PackError>(PackError::Duplicate)
                    } else {
                        r is Ok && final(pack_file)@ == with_entries(old(pack_file)@, rename_under(es, p, new_name@))
                    },
                }
            }
        }),
{
    let ghost p = path_view(tree_path@);
    let ghost es = old(pack_file)@.entries;
    if tree_path.len() == 0 {
        return Err(PackError::NotFound);
    }
    let last = tree_path.len() - 1;
    assert(p.last() == tree_path@[last as int]@);
    if str_eq(tree_path[last].as_str(), new_name) || !is_valid_name(new_name) {
        return Err(PackError::BadName);
    }
    let mut q = crate::model::copy_path(tree_path);
    q.pop();
    q.push(new_name.to_owned());
    assert(path_view(q@) =~= renamed_path(p, new_name@));
    match pack_file.classify(tree_path) {
        TreePathType::File(i) => {
            if pack_file.packedfile_exists(q.as_slice()) {
                return Err(PackError::Duplicate);
            }
            let mut e = pack_file.packed_files.remove(i);
            e.path = q;
            pack_file.packed_files.insert(i, e);
            let ghost want = es.update(i as int, with_path(es[i as int], renamed_path(p, new_name@)));
            assert(pack_file@.entries =~= want);
            assert forall|a: int, b: int|
                0 <= a < want.len() && 0 <= b < want.len() && a != b implies #[trigger] want[a].path != #[trigger] want[b].path by {
                if a == i {
                    assert(es[b].path == want[b].path);
                } else if b == i {
                    assert(es[a].path == want[a].path);
                }
            }
            assert forall|a: int| 0 <= a < want.len() implies entry_wf(#[trigger] want[a]) by {
                assert(entry_wf(es[a]));
            }
            Ok(())
        },
        TreePathType::Folder => {
            if pack_file.folder_exists(q.as_slice()) {
                return Err(PackError::Duplicate);
            }
            let k = last;
            let mut j: usize = 0;
            assert(rename_under(es, p, new_name@).subrange(0, 0) + es.subrange(0, es.len() as int) =~= es);
            assert(with_entries(old(pack_file)@, es) == old(pack_file)@);
            while j < pack_file.packed_files.len()
                invariant
                    p == path_view(tree_path@),
                    es == old(pack_file)@.entries,
                    k == p.len() - 1,
                    0 <= j <= es.len(),
                    pack_file.packed_files.len() == es.len(),
                    pack_file@ == with_entries(
                        old(pack_file)@,
                        rename_under(es, p, new_name@).subrange(0, j as int) + es.subrange(j as int, es.len() as int),
                    ),
                decreases es.len() - j,
            {
                let ghost before = pack_file@.entries;
                assert(before[j as int] == es[j as int]);
                let under = crate::model::path_strictly_starts_with(pack_file.packed_files[j].path.as_slice(), tree_path);
                assert(under == strictly_starts_with(es[j as int].path, p));
                if under {
                    let mut e = pack_file.packed_files.remove(j);
                    let ghost ev = e@;
                    let s = new_name.to_owned();
                    e.path.set(k, s);
                    assert(e@.path =~= ev.path.update(k as int, new_name@));
                    assert(e@ == with_path(ev, ev.path.update(k as int, new_name@)));
                    pack_file.packed_files.insert(j, e);
                    assert(pack_file@.entries =~= before.update(j as int, with_path(ev, ev.path.update(k as int, new_name@))));
                }
                assert(pack_file@.entries =~= rename_under(es, p, new_name@).subrange(0, j + 1) + es.subrange(j + 1, es.len() as int));
                j += 1;
            }
            assert(pack_file@.entries =~= rename_under(es, p, new_name@));
            proof {
                lemma_rename_under_wf(es, p, new_name@);
            }
            Ok(())
        },
        TreePathType::PackFile => {
            pack_file.file_name = new_name.to_owned();
            Ok(())
        },
        TreePathType::NoPath => Err(PackError::NotFound),
    }
}

/// The entries of `es` strictly below `under`, in order, each with its first
/// `cut` components replaced by `dpre`.
pub open spec fn gather(
    es: Seq<PackedFileView>,
    under: Seq<Seq<char>>,
    cut: int,
    dpre: Seq<Seq<char>>,
) -> Seq<PackedFileView>
    decreases es.len(),
{
    if es.len() == 0 {
        Seq::empty()
    } else {
        let rest = gather(es.drop_last(), under, cut, dpre);
        let e = es.last();
        if strictly_starts_with(e.path, under) {
            rest.push(with_path(e, dpre + e.path.subrange(cut, e.path.len() as int)))
        } else {
            rest
        }
    }
}

proof fn lemma_gather_push(
    es: Seq<PackedFileView>,
    e: PackedFileView,
    under: Seq<Seq<char>>,
    cut: int,
    dpre: Seq<Seq<char>>,
)
    ensures
        gather(es.push(e), under, cut, dpre) == if strictly_starts_with(e.path, under) {
            gather(es, under, cut, dpre).push(with_path(e, dpre + e.path.subrange(cut, e.path.len() as int)))
        } else {
            gather(es, under, cut, dpre)
        },
{
    assert(es.push(e).drop_last() =~= es);
    assert(es.push(e).last() == e);
}

/// The copies that a merge adds to the destination: the entry itself under
/// its leaf name, the folder's entries from the folder's own component on,
/// or every entry, each placed below `dpre`.
pub open spec fn merged_entries(
    src: PackFileView,
    sp: Seq<Seq<char>>,
    dpre: Seq<Seq<char>>,
) -> Seq<PackedFileView> {
    match kind_of(src, sp) {
        PathKind::File(i) => seq![with_path(src.entries[i], dpre.push(src.entries[i].path.last()))],
        PathKind::Folder => gather(src.entries, sp, sp.len() - 1, dpre),
        PathKind::Root => gather(src.entries, Seq::empty(), 0, dpre),
        PathKind::Nothing => Seq::empty(),
    }
}

/// The folder under which a merge places its copies: the destination folder,
/// or the top of the archive.
pub open spec fn merge_prefix(dst: PackFileView, dp: Seq<Seq<char>>) -> Seq<Seq<char>> {
    if kind_of(dst, dp) is Folder {
        dp
    } else {
        Seq::empty()
    }
}

/// A merge needs something to copy and a folder or the archive to copy to.
pub open spec fn merge_valid(src: PackFileView, sp: Seq<Seq<char>>, dst: PackFileView, dp: Seq<Seq<char>>) -> bool {
    &&& !(kind_of(src, sp) is Nothing)
    &&& (kind_of(dst, dp) is Folder || kind_of(dst, dp) is Root)
}

/// The summary of a merge.
pub open spec fn added_message(label: Seq<char>, subject: Seq<char>, dst: Seq<char>) -> Seq<char> {
    label + "\""@ + subject + "\" has been added successfully to \""@ + dst + "\""@
}

/// The path `a` followed by the components of `b` from `from` on.
fn join_path(a: &[String], b: &[String], from: usize) -> (r: Vec<String>)
    requires
        from <= b.len(),
    ensures
        path_view(r@) == path_view(a@) + path_view(b@).subrange(from as int, b@.len() as int),
{
    let mut r = crate::model::copy_path(a);
    let mut i: usize = from;
    while i < b.len()
        invariant
            from <= i <= b.len(),
            path_view(r@) == path_view(a@) + path_view(b@).subrange(from as int, i as int),
        decreases b.len() - i,
    {
        let ghost r0 = r@;
        r.push(b[i].clone());
        assert(path_view(r@) =~= path_view(r0).push(b@[i as int]@));
        i += 1;
        assert(path_view(r@) =~= path_view(a@) + path_view(b@).subrange(from as int, i as int));
    }
    r
}

/// Copies of the entries of `src` strictly below `under`, re-rooted as
/// `gather` describes.
fn gather_entries(src: &PackFile, under: &[String], cut: usize, dpre: &[String]) -> (r: Vec<PackedFile>)
    requires
        src.wf(),
        cut <= under.len(),
    ensures
        entries_view(r@) == gather(src@.entries, path_view(under@), cut as int, path_view(dpre@)),
        forall|i: int| 0 <= i < r@.len() ==> entry_wf(#[trigger] r@[i]@),
{
    let ghost es = src@.entries;
    let ghost uv = path_view(under@);
    let ghost dv = path_view(dpre@);
    let mut r: Vec<PackedFile> = Vec::new();
    let mut k: usize = 0;
    assert(es.subrange(0, 0) =~= Seq::<PackedFileView>::empty());
    assert(entries_view(r@) =~= Seq::<PackedFileView>::empty());
    while k < src.packed_files.len()
        invariant
            src.wf(),
            es == src@.entries,
            uv == path_view(under@),
            dv == path_view(dpre@),
            cut <= under.len(),
            0 <= k <= es.len(),
            entries_view(r@) == gather(es.subrange(0, k as int), uv, cut as int, dv),
            forall|i: int| 0 <= i < r@.len() ==> entry_wf(#[trigger] r@[i]@),
        decreases es.len() - k,
    {
        let e = &src.packed_files[k];
        assert(e@ == es[k as int]);
        assert(entry_wf(es[k as int]));
        assert(es.subrange(0, k + 1) =~= es.subrange(0, k as int).push(es[k as int]));
        proof {
            lemma_gather_push(es.subrange(0, k as int), es[k as int], uv, cut as int, dv);
        }
        if crate::model::path_strictly_starts_with(e.path.as_slice(), under) {
            let copy = PackedFile {
                path: join_path(dpre, e.path.as_slice(), cut),
                size: e.size,
                timestamp: e.timestamp,
                data: vstd::slice::slice_to_vec(e.data.as_slice()),
            };
            let ghost r0 = r@;
            r.push(copy);
            assert(entries_view(r@) =~= entries_view(r0).push(copy@));
        }
        k += 1;
    }
    assert(es.subrange(0, k as int) =~= es);
    r
}

/// Copies what `tree_path_source` designates in `pack_file_source` into the
/// folder or the archive that `tree_path_destination` designates in
/// `pack_file_destination`. Nothing is added when any copy would take a path
/// that is already taken.
pub fn add_packedfile_to_packfile(
    pack_file_source: &PackFile,
    pack_file_destination: &mut PackFile,
    tree_path_source: &[String],
    tree_path_destination: &[String],
) -> (r: Result<String, PackError>)
    requires
        pack_file_source.wf(),
        old(pack_file_destination).wf(),
    ensures
        final(pack_file_destination).wf(),
        r is Err ==> final(pack_file_destination)@ == old(pack_file_destination)@,
        ({
            let src = pack_file_source@;
            let sp = path_view(tree_path_source@);
            let dst = old(pack_file_destination)@;
            let dp = path_view(tree_path_destination@);
            let added = merged_entries(src, sp, merge_prefix(dst, dp));
            if !merge_valid(src, sp, dst, dp) {
                r == Err::<String, PackError>(PackError::NotFound)
            } else if !can_add(dst.entries, added) {
                r == Err::<String, PackError>(PackError::Duplicate)
            } else {
                &&& r is Ok
                &&& final(pack_file_destination)@ == with_entries(dst, dst.entries + added)
                &&& r->Ok_0@ == match kind_of(src, sp) {
                    PathKind::Root => added_message("The entire PackFile "@, src.name, dst.name),
                    PathKind::File(_) => added_message("The PackedFile "@, sp.last(), dst.name),
                    _ => added_message("The folder "@, sp.last(), dst.name),
                }
            }
        }),
{
    let source_type = pack_file_source.classify(tree_path_source);
    let destination_type = pack_file_destination.classify(tree_path_destination);
    let empty: Vec<String> = Vec::new();
    let dpre: &[String] = match destination_type {
        TreePathType::Folder => tree_path_destination,
        TreePathType::PackFile => empty.as_slice(),
        _ => {
            return Err(PackError::NotFound);
        },
    };
    assert(path_view(dpre@) == merge_prefix(old(pack_file_destination)@, path_view(tree_path_destination@)));
    let (new, label, subject) = match source_type {
        TreePathType::File(i) => {
            let e = &pack_file_source.packed_files[i];
            let leaf = e.path.len() - 1;
            assert(entry_wf(pack_file_source@.entries[i as int]));
            let copy = PackedFile {
                path: join_path(dpre, e.path.as_slice(), leaf),
                size: e.size,
                timestamp: e.timestamp,
                data: vstd::slice::slice_to_vec(e.data.as_slice()),
            };
            assert(path_view(e.path@).subrange(leaf as int, e.path@.len() as int) =~= seq![path_view(e.path@).last()]);
            assert(path_view(dpre@) + seq![path_view(e.path@).last()] =~= path_view(dpre@).push(path_view(e.path@).last()));
            let mut v: Vec<PackedFile> = Vec::new();
            v.push(copy);
            assert(entries_view(v@) =~= merged_entries(pack_file_source@, path_view(tree_path_source@), path_view(dpre@)));
            (v, "The PackedFile ", tree_path_source[tree_path_source.len() - 1].as_str())
        },
        TreePathType::Folder => {
            let v = gather_entries(pack_file_source, tree_path_source, tree_path_source.len() - 1, dpre);
            (v, "The folder ", tree_path_source[tree_path_source.len() - 1].as_str())
        },
        TreePathType::PackFile => {
            let v = gather_entries(pack_file_source, empty.as_slice(), 0, dpre);
            assert(path_view(empty@) =~= Seq::<Seq<char>>::empty());
            (v, "The entire PackFile ", pack_file_source.file_name.as_str())
        },
        TreePathType::NoPath => {
            return Err(PackError::NotFound);
        },
    };
    pack_file_destination.add_packedfiles(new)?;
    let msg = String::from_str(label).concat("\"").concat(subject).concat("\" has been added successfully to \"")
        .concat(pack_file_destination.file_name.as_str()).concat("\"");
    Ok(msg)
}

/// What extracting a tree path writes, each entry with the path it gets
/// below the destination: an entry alone gets the empty path (it is written
/// to the destination itself), a folder's entries keep their path from the
/// folder's own component on, and the archive's entries keep their whole
/// path.
pub open spec fn extraction(pf: PackFileView, p: Seq<Seq<char>>) -> Option<Seq<PackedFileView>> {
    match kind_of(pf, p) {
        PathKind::File(i) => Some(seq![with_path(pf.entries[i], Seq::empty())]),
        PathKind::Folder => Some(gather(pf.entries, p, p.len() - 1, Seq::empty())),
        PathKind::Root => Some(gather(pf.entries, Seq::empty(), 0, Seq::empty())),
        PathKind::Nothing => None,
    }
}

/// The entries that extracting `tree_path` writes, as `extraction` gives
/// them; fails with `NotFound` when the path designates nothing.
pub fn extract_plan(pack_file: &PackFile, tree_path: &[String]) -> (r: Result<Vec<PackedFile>, PackError>)
    requires
        pack_file.wf(),
    ensures
        match extraction(pack_file@, path_view(tree_path@)) {
            Some(s) => r matches Ok(v) && entries_view(v@) == s,
            None => r == Err::<Vec<PackedFile>, PackError>(PackError::NotFound),
        },
{
    let empty: Vec<String> = Vec::new();
    assert(path_view(empty@) =~= Seq::<Seq<char>>::empty());
    match pack_file.classify(tree_path) {
        TreePathType::File(i) => {
            let e = &pack_file.packed_files[i];
            let copy = PackedFile {
                path: Vec::new(),
                size: e.size,
                timestamp: e.timestamp,
                data: vstd::slice::slice_to_vec(e.data.as_slice()),
            };
            assert(path_view(copy.path@) =~= Seq::<Seq<char>>::empty());
            let mut v: Vec<PackedFile> = Vec::new();
            v.push(copy);
            assert(entries_view(v@) =~= seq![with_path(pack_file@.entries[i as int], Seq::empty())]);
            Ok(v)
        },
        TreePathType::Folder => Ok(gather_entries(pack_file, tree_path, tree_path.len() - 1, empty.as_slice())),
        TreePathType::PackFile => Ok(gather_entries(pack_file, empty.as_slice(), 0, empty.as_slice())),
        TreePathType::NoPath => Err(PackError::NotFound),
    }
}

} // verus!
