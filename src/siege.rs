//! The SiegeAI patch on map data blobs: the first defensive-hill hint of a
//! blob that holds a siege area node becomes a fort-perimeter hint, and the
//! XML files beside the blobs are removed.

use vstd::prelude::*;
use vstd::string::StringExecFns;
use crate::model::{
    PackFileView, PackError, PackFile, PackedFile, PackedFileView, entries_view, entries_wf, entry_wf, path_view, starts_with,
    with_entries,
};
use crate::model::{ends_with_chars, str_ends_with};
use crate::tree::str_eq;

verus! {

/// `pat` occurs in `d` at offset `i`.
pub open spec fn matches_at(d: Seq<u8>, pat: Seq<u8>, i: int) -> bool {
    0 <= i && i + pat.len() <= d.len() && d.subrange(i, i + pat.len()) == pat
}

pub open spec fn contains_bytes(d: Seq<u8>, pat: Seq<u8>) -> bool {
    exists|i: int| matches_at(d, pat, i)
}

/// The offset of the first occurrence of `pat` in `d`.
pub open spec fn first_match(d: Seq<u8>, pat: Seq<u8>) -> int {
    choose|i: int| matches_at(d, pat, i) && forall|j: int| 0 <= j < i ==> !matches_at(d, pat, j)
}

/// `AIH_SIEGE_AREA_NODE`
#[verifier::opaque]
pub open spec fn siege_area_node() -> Seq<u8> {
    seq![65u8, 73, 72, 95, 83, 73, 69, 71, 69, 95, 65, 82, 69, 65, 95, 78, 79, 68, 69]
}

/// `AIH_DEFENSIVE_HILL`
#[verifier::opaque]
pub open spec fn defensive_hill() -> Seq<u8> {
    seq![65u8, 73, 72, 95, 68, 69, 70, 69, 78, 83, 73, 86, 69, 95, 72, 73, 76, 76]
}

/// `AIH_FORT_PERIMETER`
#[verifier::opaque]
pub open spec fn fort_perimeter() -> Seq<u8> {
    seq![65u8, 73, 72, 95, 70, 79, 82, 84, 95, 80, 69, 82, 73, 77, 69, 84, 69, 82]
}

fn siege_area_node_bytes() -> (r: Vec<u8>)
    ensures
        r@ == siege_area_node(),
{
    let r: Vec<u8> = vec![65u8, 73, 72, 95, 83, 73, 69, 71, 69, 95, 65, 82, 69, 65, 95, 78, 79, 68, 69];
    reveal(siege_area_node);
    assert(r@ =~= siege_area_node());
    r
}

fn defensive_hill_bytes() -> (r: Vec<u8>)
    ensures
        r@ == defensive_hill(),
{
    let r: Vec<u8> = vec![65u8, 73, 72, 95, 68, 69, 70, 69, 78, 83, 73, 86, 69, 95, 72, 73, 76, 76];
    reveal(defensive_hill);
    assert(r@ =~= defensive_hill());
    r
}

fn fort_perimeter_bytes() -> (r: Vec<u8>)
    ensures
        r@ == fort_perimeter(),
{
    let r: Vec<u8> = vec![65u8, 73, 72, 95, 70, 79, 82, 84, 95, 80, 69, 82, 73, 77, 69, 84, 69, 82];
    reveal(fort_perimeter);
    assert(r@ =~= fort_perimeter());
    r
}

/// Whether `pat` occurs in `d` at offset `i`.
pub fn bytes_match_at(d: &[u8], pat: &[u8], i: usize) -> (r: bool)
    ensures
        r == matches_at(d@, pat@, i as int),
{
    if i > d.len() || pat.len() > d.len() - i {
        return false;
    }
    let mut j: usize = 0;
    while j < pat.len()
        invariant
            i + pat.len() <= d.len(),
            0 <= j <= pat.len(),
            forall|t: int| 0 <= t < j ==> d@[i + t] == pat@[t],
        decreases pat.len() - j,
    {
        if d[i + j] != pat[j] {
            assert(d@.subrange(i as int, i + pat.len())[j as int] != pat@[j as int]);
            return false;
        }
        j += 1;
    }
    assert(d@.subrange(i as int, i + pat.len()) =~= pat@);
    true
}

/// The offset of the first occurrence of `pat` in `d`, if any.
pub fn find_bytes(d: &[u8], pat: &[u8]) -> (r: Option<usize>)
    ensures
        match r {
            Some(i) => matches_at(d@, pat@, i as int) && first_match(d@, pat@) == i,
            None => !contains_bytes(d@, pat@),
        },
{
    if pat.len() > d.len() {
        return None;
    }
    let last = d.len() - pat.len();
    let mut i: usize = 0;
    loop
        invariant
            last == d.len() - pat.len(),
            0 <= i <= last,
            forall|j: int| 0 <= j < i ==> !matches_at(d@, pat@, j),
        decreases last - i,
    {
        if bytes_match_at(d, pat, i) {
            let ghost c = first_match(d@, pat@);
            assert(matches_at(d@, pat@, c) && forall|j: int| 0 <= j < c ==> !matches_at(d@, pat@, j)) by {
                assert(matches_at(d@, pat@, i as int) && forall|j: int| 0 <= j < i ==> !matches_at(d@, pat@, j));
            }
            proof {
                if c > i as int {
                    assert(!matches_at(d@, pat@, i as int));
                }
            }
            return Some(i);
        }
        if i == last {
            assert forall|j: int| !matches_at(d@, pat@, j) by {
                if 0 <= j && j + pat@.len() <= d@.len() {
                    assert(j <= last);
                }
            }
            return None;
        }
        i += 1;
    }
}
/// The folder that holds the map data of a battle map.
pub open spec fn map_folder() -> Seq<Seq<char>> {
    seq!["terrain"@, "tiles"@, "battle"@, "_assembly_kit"@]
}

/// The names of the map data blobs that the patch rewrites.
#[verifier::opaque]
pub open spec fn is_map_blob(leaf: Seq<char>) -> bool {
    leaf == "bmd_data.bin"@ || leaf == "catchment_01_layer_bmd_data.bin"@
        || leaf == "catchment_02_layer_bmd_data.bin"@ || leaf == "catchment_03_layer_bmd_data.bin"@
        || leaf == "catchment_04_layer_bmd_data.bin"@ || leaf == "catchment_05_layer_bmd_data.bin"@
        || leaf == "catchment_06_layer_bmd_data.bin"@ || leaf == "catchment_07_layer_bmd_data.bin"@
        || leaf == "catchment_08_layer_bmd_data.bin"@ || leaf == "catchment_09_layer_bmd_data.bin"@
}

pub open spec fn in_scope(e: PackedFileView) -> bool {
    starts_with(e.path, map_folder()) && e.path.len() > 0
}

/// An XML file beside the map data, which the patch deletes.
pub open spec fn is_xml_target(e: PackedFileView) -> bool {
    in_scope(e) && !is_map_blob(e.path.last()) && ends_with_chars(e.path.last(), ".xml"@)
}

/// A map data blob with a siege area node and a defensive hill to rewrite.
pub open spec fn is_patch_target(e: PackedFileView) -> bool {
    &&& in_scope(e)
    &&& is_map_blob(e.path.last())
    &&& contains_bytes(e.data, siege_area_node())
    &&& contains_bytes(e.data, defensive_hill())
}

/// `d` with its first defensive hill rewritten as a fort perimeter.
pub open spec fn patched_data(d: Seq<u8>) -> Seq<u8> {
    let i = first_match(d, defensive_hill());
    d.subrange(0, i) + fort_perimeter() + d.subrange(i + 18, d.len() as int)
}

#[verifier::opaque]
pub open spec fn patch_entry(e: PackedFileView) -> PackedFileView {
    if is_patch_target(e) {
        PackedFileView { data: patched_data(e.data), ..e }
    } else {
        e
    }
}

/// A rewritten blob that still holds a defensive hill.
pub open spec fn leaves_hill(e: PackedFileView) -> bool {
    is_patch_target(e) && contains_bytes(patched_data(e.data), defensive_hill())
}

/// The entries after the patch: XML targets dropped, blobs rewritten.
pub open spec fn siege_pass(es: Seq<PackedFileView>) -> Seq<PackedFileView>
    decreases es.len(),
{
    if es.len() == 0 {
        es
    } else {
        let rest = siege_pass(es.drop_last());
        if is_xml_target(es.last()) {
            rest
        } else {
            rest.push(patch_entry(es.last()))
        }
    }
}

pub open spec fn count_patched(es: Seq<PackedFileView>) -> nat
    decreases es.len(),
{
    if es.len() == 0 {
        0
    } else {
        count_patched(es.drop_last()) + if is_patch_target(es.last()) { 1nat } else { 0nat }
    }
}

pub open spec fn count_deleted(es: Seq<PackedFileView>) -> nat
    decreases es.len(),
{
    if es.len() == 0 {
        0
    } else {
        count_deleted(es.drop_last()) + if is_xml_target(es.last()) { 1nat } else { 0nat }
    }
}

pub open spec fn any_leaves_hill(es: Seq<PackedFileView>) -> bool
    decreases es.len(),
{
    if es.len() == 0 {
        false
    } else {
        any_leaves_hill(es.drop_last()) || leaves_hill(es.last())
    }
}

pub open spec fn any_in_scope(es: Seq<PackedFileView>) -> bool {
    exists|i: int| 0 <= i < es.len() && in_scope(#[trigger] es[i])
}

/// What the patch did: blobs rewritten, files deleted, and whether some
/// rewritten blob still holds a defensive hill.
#[derive(Clone, Copy, Debug, PartialEq, Eq, Structural)]
pub struct SiegeReport {
    pub patched: usize,
    pub deleted: usize,
    pub warning: bool,
}

fn map_folder_path() -> (r: Vec<String>)
    ensures
        path_view(r@) == map_folder(),
{
    let mut r: Vec<String> = Vec::new();
    r.push(String::from_str("terrain"));
    r.push(String::from_str("tiles"));
    r.push(String::from_str("battle"));
    r.push(String::from_str("_assembly_kit"));
    assert(path_view(r@) =~= map_folder());
    r
}

fn is_map_blob_name(leaf: &str) -> (r: bool)
    ensures
        r == is_map_blob(leaf@),
{
    reveal(is_map_blob);
    str_eq(leaf, "bmd_data.bin") || str_eq(leaf, "catchment_01_layer_bmd_data.bin")
        || str_eq(leaf, "catchment_02_layer_bmd_data.bin") || str_eq(leaf, "catchment_03_layer_bmd_data.bin")
        || str_eq(leaf, "catchment_04_layer_bmd_data.bin") || str_eq(leaf, "catchment_05_layer_bmd_data.bin")
        || str_eq(leaf, "catchment_06_layer_bmd_data.bin") || str_eq(leaf, "catchment_07_layer_bmd_data.bin")
        || str_eq(leaf, "catchment_08_layer_bmd_data.bin") || str_eq(leaf, "catchment_09_layer_bmd_data.bin")
}

/// Writes `src` over `d` from offset `pos` on.
fn overwrite(d: &mut Vec<u8>, pos: usize, src: &[u8])
    requires
        pos + src@.len() <= old(d)@.len(),
    ensures
        final(d)@ == old(d)@.subrange(0, pos as int) + src@ + old(d)@.subrange(pos + src@.len(), old(d)@.len() as int),
{
    let ghost d0 = d@;
    let mut j: usize = 0;
    while j < src.len()
        invariant
            pos + src@.len() <= d0.len(),
            d@.len() == d0.len(),
            d.len() == d0.len(),
            0 <= j <= src@.len(),
            d@ == d0.subrange(0, pos as int) + src@.subrange(0, j as int) + d0.subrange(pos + j, d0.len() as int),
        decreases src.len() - j,
    {
        d.set(pos + j, src[j]);
        assert(d@ =~= d0.subrange(0, pos as int) + src@.subrange(0, j + 1) + d0.subrange(pos + j + 1, d0.len() as int));
        j += 1;
    }
    assert(src@.subrange(0, src@.len() as int) =~= src@);
}

proof fn lemma_pattern_lens()
    ensures
        siege_area_node().len() == 19,
        defensive_hill().len() == 18,
        fort_perimeter().len() == 18,
{
    reveal(siege_area_node);
    reveal(defensive_hill);
    reveal(fort_perimeter);
}

proof fn lemma_patch_entry(e: PackedFileView)
    ensures
        patch_entry(e).path == e.path,
        entry_wf(e) ==> entry_wf(patch_entry(e)),
        !is_patch_target(e) ==> patch_entry(e) == e,
{
    reveal(patch_entry);
    lemma_pattern_lens();
    if is_patch_target(e) {
        let i = first_match(e.data, defensive_hill());
        assert(matches_at(e.data, defensive_hill(), i) && forall|j: int| 0 <= j < i ==> !matches_at(e.data, defensive_hill(), j)) by {
            let w = choose|w: int| matches_at(e.data, defensive_hill(), w);
            lemma_first_match_exists(e.data, defensive_hill(), w);
        }
        assert(patched_data(e.data).len() == e.data.len());
    }
}

proof fn lemma_first_match_exists(d: Seq<u8>, pat: Seq<u8>, w: int)
    requires
        matches_at(d, pat, w),
    ensures
        matches_at(d, pat, first_match(d, pat)),
        forall|j: int| 0 <= j < first_match(d, pat) ==> !matches_at(d, pat, j),
    decreases w,
{
    if exists|j: int| 0 <= j < w && matches_at(d, pat, j) {
        let j = choose|j: int| 0 <= j < w && matches_at(d, pat, j);
        lemma_first_match_exists(d, pat, j);
    } else {
        assert(matches_at(d, pat, w) && forall|j: int| 0 <= j < w ==> !matches_at(d, pat, j));
    }
}

/// Rewrites the first defensive hill of `d` when `d` holds a siege area
/// node and a defensive hill; tells whether it did and whether a defensive
/// hill is left.
fn patch_hint(d: &mut Vec<u8>, node: &[u8], hill: &[u8], fort: &[u8]) -> (r: (bool, bool))
    requires
        node@ == siege_area_node(),
        hill@ == defensive_hill(),
        fort@ == fort_perimeter(),
    ensures
        r.0 == (contains_bytes(old(d)@, siege_area_node()) && contains_bytes(old(d)@, defensive_hill())),
        r.0 ==> final(d)@ == patched_data(old(d)@) && r.1 == contains_bytes(final(d)@, defensive_hill()),
        !r.0 ==> final(d)@ == old(d)@ && !r.1,
{
    let has_node = find_bytes(d.as_slice(), node).is_some();
    let at = find_bytes(d.as_slice(), hill);
    match at {
        Some(pos) => {
            if has_node {
                let ghost d0 = d@;
                proof {
                    lemma_pattern_lens();
                }
                assert(contains_bytes(d0, defensive_hill()));
                overwrite(d, pos, fort);
                assert(d@ == patched_data(d0));
                let again = find_bytes(d.as_slice(), hill).is_some();
                (true, again)
            } else {
                (false, false)
            }
        },
        None => (false, false),
    }
}

/// Rewrites one map data blob.
fn patch_blob(e: &mut PackedFile, node: &[u8], hill: &[u8], fort: &[u8]) -> (r: (bool, bool))
    requires
        entry_wf(old(e)@),
        in_scope(old(e)@),
        is_map_blob(old(e)@.path.last()),
        node@ == siege_area_node(),
        hill@ == defensive_hill(),
        fort@ == fort_perimeter(),
    ensures
        final(e)@ == patch_entry(old(e)@),
        r.0 == is_patch_target(old(e)@),
        r.1 == leaves_hill(old(e)@),
{
    let ghost x = e@;
    let r = patch_hint(&mut e.data, node, hill, fort);
    proof {
        reveal(patch_entry);
        if r.0 {
            assert(e@ == PackedFileView { data: patched_data(x.data), ..x });
        } else {
            assert(e@ == x);
        }
    }
    r
}

proof fn lemma_siege_step(s: Seq<PackedFileView>, x: PackedFileView)
    ensures
        siege_pass(s.push(x)) == if is_xml_target(x) { siege_pass(s) } else { siege_pass(s).push(patch_entry(x)) },
        count_patched(s.push(x)) == count_patched(s) + if is_patch_target(x) { 1nat } else { 0nat },
        count_deleted(s.push(x)) == count_deleted(s) + if is_xml_target(x) { 1nat } else { 0nat },
        any_leaves_hill(s.push(x)) == (any_leaves_hill(s) || leaves_hill(x)),
{
    assert(s.push(x).drop_last() =~= s);
    assert(s.push(x).last() == x);
}

proof fn lemma_counts_bounded(s: Seq<PackedFileView>)
    ensures
        count_patched(s) <= s.len(),
        count_deleted(s) <= s.len(),
    decreases s.len(),
{
    if s.len() > 0 {
        lemma_counts_bounded(s.drop_last());
    }
}

proof fn lemma_siege_pass_wf(es: Seq<PackedFileView>)
    requires
        entries_wf(es),
    ensures
        entries_wf(siege_pass(es)),
        forall|y: PackedFileView| siege_pass(es).contains(y) ==> exists|j: int| 0 <= j < es.len() && es[j].path == y.path,
    decreases es.len(),
{
    if es.len() > 0 {
        let init = es.drop_last();
        assert forall|i: int, j: int|
            0 <= i < init.len() && 0 <= j < init.len() && i != j implies #[trigger] init[i].path != #[trigger] init[j].path by {
            assert(init[i] == es[i] && init[j] == es[j]);
        }
        assert forall|i: int| 0 <= i < init.len() implies entry_wf(#[trigger] init[i]) by {
            assert(init[i] == es[i]);
        }
        lemma_siege_pass_wf(init);
        let rest = siege_pass(init);
        let last = es.last();
        assert(entry_wf(es[es.len() - 1]));
        if !is_xml_target(last) {
            lemma_patch_entry(last);
            let out = rest.push(patch_entry(last));
            let n = es.len() - 1;
            assert forall|i: int, j: int|
                0 <= i < out.len() && 0 <= j < out.len() && i != j implies #[trigger] out[i].path != #[trigger] out[j].path by {
                if i == rest.len() && j < rest.len() {
                    assert(rest.contains(out[j]));
                    let t = choose|t: int| 0 <= t < init.len() && init[t].path == out[j].path;
                    assert(es[t].path != es[n].path);
                } else if j == rest.len() && i < rest.len() {
                    assert(rest.contains(out[i]));
                    let t = choose|t: int| 0 <= t < init.len() && init[t].path == out[i].path;
                    assert(es[t].path != es[n].path);
                } else if i < rest.len() && j < rest.len() {
                    assert(out[i] == rest[i] && out[j] == rest[j]);
                }
            }
            assert forall|i: int| 0 <= i < out.len() implies entry_wf(#[trigger] out[i]) by {
                if i < rest.len() {
                    assert(out[i] == rest[i]);
                } else {
                    assert(out[i] == patch_entry(last));
                }
            }
            assert forall|y: PackedFileView| out.contains(y) implies exists|j: int| 0 <= j < es.len() && es[j].path == y.path by {
                let t = choose|t: int| 0 <= t < out.len() && out[t] == y;
                if t < rest.len() {
                    assert(rest.contains(y));
                    let u = choose|u: int| 0 <= u < init.len() && init[u].path == y.path;
                    assert(es[u].path == y.path);
                } else {
                    assert(es[n].path == y.path);
                }
            }
        } else {
            assert forall|y: PackedFileView| rest.contains(y) implies exists|j: int| 0 <= j < es.len() && es[j].path == y.path by {
                let u = choose|u: int| 0 <= u < init.len() && init[u].path == y.path;
                assert(es[u].path == y.path);
            }
        }
    }
}

/// Runs the SiegeAI patch over every entry of the map folder: rewrites the
/// blobs, then deletes the XML files. Fails with `Empty` when no entry lies
/// in the map folder, and with `NotFound` when nothing was rewritten or
/// deleted; the entries are as `siege_pass` gives them in every case.
pub fn patch_siege_ai(pack_file: &mut PackFile) -> (r: Result<SiegeReport, PackError>)
    requires
        old(pack_file).wf(),
    ensures
        final(pack_file).wf(),
        final(pack_file)@ == with_entries(old(pack_file)@, siege_pass(old(pack_file)@.entries)),
        ({
            let es = old(pack_file)@.entries;
            if !any_in_scope(es) {
                r == Err::<SiegeReport, PackError>(PackError::Empty)
            } else if count_patched(es) == 0 && count_deleted(es) == 0 {
                r == Err::<SiegeReport, PackError>(PackError::NotFound)
            } else {
                r == Ok::<SiegeReport, PackError>(SiegeReport {
                    patched: count_patched(es) as usize,
                    deleted: count_deleted(es) as usize,
                    warning: any_leaves_hill(es),
                })
            }
        }),
{
    let ghost es = old(pack_file)@.entries;
    let total = pack_file.packed_files.len();
    let folder = map_folder_path();
    let node = siege_area_node_bytes();
    let hill = defensive_hill_bytes();
    let fort = fort_perimeter_bytes();
    let mut patched: usize = 0;
    let mut deleted: usize = 0;
    let mut warning = false;
    let mut seen = false;
    let mut i: usize = 0;
    let ghost mut k: int = 0;
    assert(siege_pass(es.subrange(0, 0)) + es.subrange(0, es.len() as int) =~= es);
    assert(with_entries(old(pack_file)@, es) == old(pack_file)@);
    while i < pack_file.packed_files.len()
        invariant
            es == old(pack_file)@.entries,
            es.len() == total,
            entries_wf(es),
            path_view(folder@) == map_folder(),
            node@ == siege_area_node(),
            hill@ == defensive_hill(),
            fort@ == fort_perimeter(),
            0 <= k <= es.len(),
            i == siege_pass(es.subrange(0, k)).len(),
            pack_file.packed_files.len() == i + (es.len() - k),
            pack_file@ == with_entries(old(pack_file)@, siege_pass(es.subrange(0, k)) + es.subrange(k, es.len() as int)),
            patched == count_patched(es.subrange(0, k)),
            deleted == count_deleted(es.subrange(0, k)),
            warning == any_leaves_hill(es.subrange(0, k)),
            seen == exists|j: int| 0 <= j < k && in_scope(#[trigger] es[j]),
        decreases es.len() - k,
    {
        let ghost x = es[k];
        assert(pack_file@.entries[i as int] == x);
        assert(es.subrange(0, k + 1) =~= es.subrange(0, k).push(x));
        proof {
            lemma_siege_step(es.subrange(0, k), x);
            lemma_counts_bounded(es.subrange(0, k));
        }
        assert(entry_wf(es[k]));
        let ghost rest = siege_pass(es.subrange(0, k));
        let scoped = crate::model::path_starts_with(pack_file.packed_files[i].path.as_slice(), folder.as_slice());
        if scoped {
            assert(in_scope(x));
            seen = true;
            let n = pack_file.packed_files[i].path.len();
            assert(x.path.last() == pack_file.packed_files@[i as int].path@[n - 1]@);
            let blob = is_map_blob_name(pack_file.packed_files[i].path[n - 1].as_str());
            if blob {
                let ghost before = pack_file.packed_files@;
                let mut e = pack_file.packed_files.remove(i);
                let (did, again) = patch_blob(&mut e, node.as_slice(), hill.as_slice(), fort.as_slice());
                let ghost ev = e@;
                pack_file.packed_files.insert(i, e);
                assert(pack_file.packed_files@ == before.update(i as int, e));
                assert(entries_view(pack_file.packed_files@) =~= entries_view(before).update(i as int, ev));
                if did {
                    patched = patched + 1;
                }
                warning = warning || again;
                assert(!is_xml_target(x));
                assert(pack_file@.entries =~= rest.push(patch_entry(x)) + es.subrange(k + 1, es.len() as int));
                i += 1;
            } else if str_ends_with(pack_file.packed_files[i].path[n - 1].as_str(), ".xml") {
                assert(is_xml_target(x));
                let ghost before = pack_file.packed_files@;
                pack_file.packed_files.remove(i);
                assert(entries_view(pack_file.packed_files@) =~= entries_view(before).remove(i as int));
                deleted = deleted + 1;
                assert(pack_file@.entries =~= rest + es.subrange(k + 1, es.len() as int));
            } else {
                assert(!is_xml_target(x) && !is_patch_target(x));
                proof {
                    lemma_patch_entry(x);
                }
                assert(pack_file@.entries =~= rest.push(patch_entry(x)) + es.subrange(k + 1, es.len() as int));
                i += 1;
            }
        } else {
            assert(!in_scope(x));
            proof {
                lemma_patch_entry(x);
            }
            assert(pack_file@.entries =~= rest.push(patch_entry(x)) + es.subrange(k + 1, es.len() as int));
            i += 1;
        }
        proof {
            k = k + 1;
        }
    }
    assert(es.subrange(0, k) =~= es);
    assert(pack_file@.entries =~= siege_pass(es));
    proof {
        lemma_siege_pass_wf(es);
    }
    if !seen {
        return Err(PackError::Empty);
    }
    if patched == 0 && deleted == 0 {
        return Err(PackError::NotFound);
    }
    Ok(SiegeReport { patched, deleted, warning })
}

proof fn lemma_siege_pass_idempotent(es: Seq<PackedFileView>)
    requires
        !any_leaves_hill(es),
    ensures
        siege_pass(siege_pass(es)) == siege_pass(es),
    decreases es.len(),
{
    if es.len() > 0 {
        let init = es.drop_last();
        let x = es.last();
        assert(es == init.push(x));
        lemma_siege_step(init, x);
        lemma_siege_pass_idempotent(init);
        if !is_xml_target(x) {
            let y = patch_entry(x);
            lemma_patch_entry(x);
            assert(!is_patch_target(y)) by {
                reveal(patch_entry);
            }
            lemma_patch_entry(y);
            lemma_siege_step(siege_pass(init), y);
        }
    }
}

/// Running the SiegeAI patch on its own result changes nothing, as long as
/// the first run left no rewritten blob with a defensive hill in it.
pub proof fn lemma_siege_idempotent(v: PackFileView)
    requires
        !any_leaves_hill(v.entries),
    ensures
        ({
            let once = with_entries(v, siege_pass(v.entries));
            with_entries(once, siege_pass(once.entries)) == once
        }),
{
    lemma_siege_pass_idempotent(v.entries);
}

} // verus!
