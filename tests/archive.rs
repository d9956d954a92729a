use rpfm::model::{PackError, PackFile, PackFileId, PackedFile, TreePathType};
use rpfm::siege::{patch_siege_ai, SiegeReport};
use rpfm::tree::{
    add_packedfile_to_packfile, delete_from_packfile, extract_plan, new_packfile, rename_packed_file,
    update_packed_file_data_text,
};

fn path(parts: &[&str]) -> Vec<String> {
    parts.iter().map(|s| s.to_string()).collect()
}

fn entry(parts: &[&str], data: &[u8]) -> PackedFile {
    PackedFile { path: path(parts), size: data.len() as u32, timestamp: 0, data: data.to_vec() }
}

fn archive(name: &str, entries: Vec<PackedFile>) -> PackFile {
    let mut pf = new_packfile(name.to_string(), PackFileId::Pfh5);
    pf.add_packedfiles(entries).unwrap();
    pf
}

fn paths(pf: &PackFile) -> Vec<Vec<String>> {
    pf.packed_files.iter().map(|e| e.path.clone()).collect()
}

fn u32le(x: u32) -> Vec<u8> {
    x.to_le_bytes().to_vec()
}

/// A PFH5 archive with no parents and the single entry foo/bar.txt = "ABCD".
fn single_entry_bytes() -> Vec<u8> {
    let mut b = b"PFH5".to_vec();
    b.extend(u32le(0));
    b.extend(u32le(0));
    b.extend(u32le(0));
    b.extend(u32le(1));
    b.extend(u32le(16));
    b.extend(u32le(0));
    b.extend(u32le(4));
    b.extend(b"foo/bar.txt\0");
    b.extend(b"ABCD");
    b
}

#[test]
fn decode_then_encode_single_entry() {
    let bytes = single_entry_bytes();
    assert_eq!(bytes.len(), 48);
    let pf = PackFile::read(&bytes, "test.pack".to_string()).ok().unwrap();
    assert_eq!(pf.packed_files.len(), 1);
    assert_eq!(pf.packed_files[0].path, path(&["foo", "bar.txt"]));
    assert_eq!(pf.packed_files[0].size, 4);
    assert_eq!(pf.packed_files[0].data, b"ABCD".to_vec());
    assert_eq!(pf.pack_file_type, 0);
    assert_eq!(pf.save().unwrap(), bytes);
}

#[test]
fn decode_then_encode_with_parents_and_timestamps() {
    let mut b = b"PFH4".to_vec();
    b.extend(u32le(0x40 | 3));
    b.extend(u32le(1));
    b.extend(u32le(10));
    b.extend(u32le(2));
    b.extend(u32le(8 + 6 + 8 + 7));
    b.extend(u32le(1234));
    b.extend(b"base.pa\xc3\xa9\0");
    b.extend(u32le(2));
    b.extend(u32le(77));
    b.extend(b"a/b.x\0");
    b.extend(u32le(0));
    b.extend(u32le(78));
    b.extend(b"\xc3\xa9/c.y\0");
    b.extend(b"hi");
    let pf = PackFile::read(&b, "x.pack".to_string()).ok().unwrap();
    assert_eq!(pf.parents, vec!["base.pa\u{e9}".to_string()]);
    assert_eq!(pf.pack_file_type, 3);
    assert_eq!(pf.bitmask, 0x40);
    assert_eq!(pf.creation_time, 1234);
    assert_eq!(pf.packed_files[1].path, path(&["\u{e9}", "c.y"]));
    assert_eq!(pf.packed_files[1].timestamp, 78);
    assert_eq!(pf.packed_files[1].data.len(), 0);
    assert_eq!(pf.save().unwrap(), b);
}

#[test]
fn decode_rejects_bad_inputs() {
    let good = single_entry_bytes();
    assert_eq!(PackFile::read(&good, "test.zip".to_string()).err(), Some(PackError::BadName));
    assert_eq!(PackFile::read(&good[..20], "t.pack".to_string()).err(), Some(PackError::BadFormat));
    let mut magic = good.clone();
    magic[3] = b'9';
    assert_eq!(PackFile::read(&magic, "t.pack".to_string()).err(), Some(PackError::BadFormat));
    let mut enc = good.clone();
    enc[4] = 0x80;
    assert_eq!(PackFile::read(&enc, "t.pack".to_string()).err(), Some(PackError::Unsupported));
    let mut trailing = good.clone();
    trailing.push(0);
    assert_eq!(PackFile::read(&trailing, "t.pack".to_string()).err(), Some(PackError::BadFormat));
    let mut utf = good.clone();
    utf[32] = 0xff;
    assert_eq!(PackFile::read(&utf, "t.pack".to_string()).err(), Some(PackError::BadEncoding));
    for cut in [28, 31, 35, 43, 44, 47] {
        assert_eq!(PackFile::read(&good[..cut], "t.pack".to_string()).err(), Some(PackError::BadFormat));
    }
    let mut empty_component = good.clone();
    empty_component[36] = b'/';
    assert_eq!(PackFile::read(&empty_component, "t.pack".to_string()).err(), Some(PackError::BadFormat));
}

#[test]
fn save_writes_header_counts() {
    let pf = archive("a.pack", vec![entry(&["x"], b"12"), entry(&["d", "y"], b"")]);
    let b = pf.save().unwrap();
    assert_eq!(&b[0..4], b"PFH5");
    assert_eq!(&b[4..8], &u32le(3)[..]);
    assert_eq!(&b[16..20], &u32le(2)[..]);
    assert_eq!(&b[20..24], &u32le(4 + 2 + 4 + 4)[..]);
    let back = PackFile::read(&b, "a.pack".to_string()).ok().unwrap();
    assert_eq!(paths(&back), paths(&pf));
}

#[test]
fn rename_file_keeps_size() {
    let mut pf = PackFile::read(&single_entry_bytes(), "test.pack".to_string()).ok().unwrap();
    let before = pf.save().unwrap().len();
    rename_packed_file(&mut pf, &path(&["foo", "bar.txt"]), "baz.txt").unwrap();
    assert_eq!(pf.packed_files[0].path, path(&["foo", "baz.txt"]));
    assert_eq!(pf.save().unwrap().len(), before);
}

#[test]
fn rename_rejects_whitespace() {
    let mut pf = archive("a.pack", vec![entry(&["foo", "bar.txt"], b"1")]);
    assert_eq!(rename_packed_file(&mut pf, &path(&["foo", "bar.txt"]), "new name"), Err(PackError::BadName));
    assert_eq!(rename_packed_file(&mut pf, &path(&["foo", "bar.txt"]), "a\tb"), Err(PackError::BadName));
    assert_eq!(rename_packed_file(&mut pf, &path(&["foo", "bar.txt"]), "a/b"), Err(PackError::BadName));
    assert_eq!(rename_packed_file(&mut pf, &path(&["foo", "bar.txt"]), ""), Err(PackError::BadName));
    assert_eq!(rename_packed_file(&mut pf, &path(&["foo", "bar.txt"]), "bar.txt"), Err(PackError::BadName));
    assert_eq!(pf.packed_files[0].path, path(&["foo", "bar.txt"]));
}

#[test]
fn rename_folder_and_root() {
    let mut pf = archive(
        "a.pack",
        vec![entry(&["d", "x"], b"1"), entry(&["e"], b"2"), entry(&["d", "s", "y"], b"3")],
    );
    rename_packed_file(&mut pf, &path(&["d"]), "q").unwrap();
    assert_eq!(paths(&pf), vec![path(&["q", "x"]), path(&["e"]), path(&["q", "s", "y"])]);
    assert_eq!(pf.packed_files.len(), 3);
    assert_eq!(rename_packed_file(&mut pf, &path(&["q", "x"]), "s"), Ok(()));
    assert_eq!(paths(&pf), vec![path(&["q", "s"]), path(&["e"]), path(&["q", "s", "y"])]);
    assert_eq!(rename_packed_file(&mut pf, &path(&["nothing"]), "z"), Err(PackError::NotFound));
    assert_eq!(rename_packed_file(&mut pf, &[], "z"), Err(PackError::NotFound));
    rename_packed_file(&mut pf, &path(&["a.pack"]), "b.pack").unwrap();
    assert_eq!(pf.file_name, "b.pack");
    rename_packed_file(&mut pf, &path(&["q"]), "e").unwrap();
    assert_eq!(paths(&pf), vec![path(&["e", "s"]), path(&["e"]), path(&["e", "s", "y"])]);
    assert_eq!(pf.file_name, "b.pack");
}

#[test]
fn add_duplicate_leaves_archive() {
    let mut pf = archive("a.pack", vec![entry(&["foo", "bar.txt"], b"1")]);
    let before = pf.save().unwrap();
    assert_eq!(pf.add_packedfiles(vec![entry(&["foo", "bar.txt"], b"22")]), Err(PackError::Duplicate));
    assert_eq!(pf.add_packedfiles(vec![entry(&["n"], b""), entry(&["n"], b"")]), Err(PackError::Duplicate));
    assert_eq!(pf.save().unwrap(), before);
    assert!(pf.packedfile_exists(&path(&["foo", "bar.txt"])));
    assert!(pf.folder_exists(&path(&["foo"])));
    assert!(!pf.folder_exists(&path(&["foo", "bar.txt"])));
}

#[test]
fn classify_paths() {
    let pf = archive("a.pack", vec![entry(&["d", "x"], b"1"), entry(&["e"], b"2")]);
    assert_eq!(pf.classify(&path(&["e"])), TreePathType::File(1));
    assert_eq!(pf.classify(&path(&["d"])), TreePathType::Folder);
    assert_eq!(pf.classify(&path(&["a.pack"])), TreePathType::PackFile);
    assert_eq!(pf.classify(&path(&["zz"])), TreePathType::NoPath);
    assert_eq!(pf.classify(&[]), TreePathType::NoPath);
}

#[test]
fn delete_folder_filters_by_prefix() {
    let mut pf = archive(
        "a.pack",
        vec![entry(&["d", "x"], b"1"), entry(&["e"], b"2"), entry(&["d", "s", "y"], b"3"), entry(&["f", "d"], b"4")],
    );
    delete_from_packfile(&mut pf, &path(&["d"])).unwrap();
    assert_eq!(paths(&pf), vec![path(&["e"]), path(&["f", "d"])]);
    delete_from_packfile(&mut pf, &path(&["e"])).unwrap();
    assert_eq!(paths(&pf), vec![path(&["f", "d"])]);
    assert_eq!(delete_from_packfile(&mut pf, &path(&["e"])), Err(PackError::NotFound));
    delete_from_packfile(&mut pf, &path(&["a.pack"])).unwrap();
    assert!(pf.packed_files.is_empty());
}

#[test]
fn update_text_sets_size() {
    let mut pf = archive("a.pack", vec![entry(&["t.txt"], b"old")]);
    update_packed_file_data_text(b"newer", &mut pf, 0);
    assert_eq!(pf.packed_files[0].data, b"newer".to_vec());
    assert_eq!(pf.packed_files[0].size, 5);
}

#[test]
fn merge_folder_into_folder() {
    let src = archive("s.pack", vec![entry(&["a", "b", "c.txt"], b"1"), entry(&["a", "z"], b"2"), entry(&["a", "b", "d"], b"3")]);
    let mut dst = archive("d.pack", vec![entry(&["dest", "keep"], b"k")]);
    let msg = add_packedfile_to_packfile(&src, &mut dst, &path(&["a", "b"]), &path(&["dest"])).unwrap();
    assert_eq!(msg, "The folder \"b\" has been added successfully to \"d.pack\"");
    assert_eq!(
        paths(&dst),
        vec![path(&["dest", "keep"]), path(&["dest", "b", "c.txt"]), path(&["dest", "b", "d"])]
    );
    assert_eq!(dst.packed_files[1].data, b"1".to_vec());
}

#[test]
fn merge_file_and_root() {
    let src = archive("s.pack", vec![entry(&["a", "b", "c.txt"], b"1"), entry(&["z"], b"2")]);
    let mut dst = archive("d.pack", vec![]);
    let msg = add_packedfile_to_packfile(&src, &mut dst, &path(&["a", "b", "c.txt"]), &path(&["d.pack"])).unwrap();
    assert_eq!(msg, "The PackedFile \"c.txt\" has been added successfully to \"d.pack\"");
    assert_eq!(paths(&dst), vec![path(&["c.txt"])]);
    let mut dst2 = archive("e.pack", vec![entry(&["f", "x"], b"")]);
    let msg = add_packedfile_to_packfile(&src, &mut dst2, &path(&["s.pack"]), &path(&["f"])).unwrap();
    assert_eq!(msg, "The entire PackFile \"s.pack\" has been added successfully to \"e.pack\"");
    assert_eq!(
        paths(&dst2),
        vec![path(&["f", "x"]), path(&["f", "a", "b", "c.txt"]), path(&["f", "z"])]
    );
}

#[test]
fn merge_collision_is_atomic() {
    let src = archive("s.pack", vec![entry(&["a", "x"], b"1"), entry(&["a", "y"], b"2")]);
    let mut dst = archive("d.pack", vec![entry(&["a", "y"], b"old")]);
    let before = dst.save().unwrap();
    assert_eq!(
        add_packedfile_to_packfile(&src, &mut dst, &path(&["a"]), &path(&["d.pack"])),
        Err(PackError::Duplicate)
    );
    assert_eq!(dst.save().unwrap(), before);
    assert_eq!(
        add_packedfile_to_packfile(&src, &mut dst, &path(&["nope"]), &path(&["d.pack"])),
        Err(PackError::NotFound)
    );
    assert_eq!(
        add_packedfile_to_packfile(&src, &mut dst, &path(&["a"]), &path(&["a", "y"])),
        Err(PackError::NotFound)
    );
    assert_eq!(dst.save().unwrap(), before);
}

const KIT: [&str; 4] = ["terrain", "tiles", "battle", "_assembly_kit"];

fn kit(leaf: &str) -> Vec<&str> {
    let mut p = KIT.to_vec();
    p.push(leaf);
    p
}

#[test]
fn siege_patch_rewrites_first_hill() {
    let blob = b"..AIH_SIEGE_AREA_NODE..AIH_DEFENSIVE_HILL..AIH_DEFENSIVE_HILL..".to_vec();
    let mut pf = archive("m.pack", vec![entry(&kit("bmd_data.bin"), &blob)]);
    let report = patch_siege_ai(&mut pf).unwrap();
    assert_eq!(report, SiegeReport { patched: 1, deleted: 0, warning: true });
    assert_eq!(
        pf.packed_files[0].data,
        b"..AIH_SIEGE_AREA_NODE..AIH_FORT_PERIMETER..AIH_DEFENSIVE_HILL..".to_vec()
    );
    assert_eq!(pf.packed_files[0].size as usize, blob.len());
}

#[test]
fn siege_patch_deletes_xml_and_is_idempotent() {
    let blob = b"AIH_DEFENSIVE_HILLxAIH_SIEGE_AREA_NODE".to_vec();
    let mut pf = archive(
        "m.pack",
        vec![
            entry(&kit("catchment_03_layer_bmd_data.bin"), &blob),
            entry(&kit("notes.xml"), b"<x/>"),
            entry(&["other", "keep.xml"], b"<y/>"),
            entry(&kit("sub.bin"), b"AIH_SIEGE_AREA_NODE AIH_DEFENSIVE_HILL"),
        ],
    );
    let report = patch_siege_ai(&mut pf).unwrap();
    assert_eq!(report, SiegeReport { patched: 1, deleted: 1, warning: false });
    assert_eq!(pf.packed_files.len(), 3);
    assert_eq!(pf.packed_files[0].data, b"AIH_FORT_PERIMETERxAIH_SIEGE_AREA_NODE".to_vec());
    assert_eq!(pf.packed_files[2].data, b"AIH_SIEGE_AREA_NODE AIH_DEFENSIVE_HILL".to_vec());
    let once = pf.save().unwrap();
    assert_eq!(patch_siege_ai(&mut pf), Err(PackError::NotFound));
    assert_eq!(pf.save().unwrap(), once);
}

#[test]
fn siege_patch_errors() {
    let mut empty = archive("m.pack", vec![entry(&["x"], b"")]);
    assert_eq!(patch_siege_ai(&mut empty), Err(PackError::Empty));
    let mut nothing = archive("m.pack", vec![entry(&kit("bmd_data.bin"), b"AIH_DEFENSIVE_HILL only")]);
    assert_eq!(patch_siege_ai(&mut nothing), Err(PackError::NotFound));
    assert_eq!(nothing.packed_files[0].data, b"AIH_DEFENSIVE_HILL only".to_vec());
}

#[test]
fn extract_plan_paths() {
    let pf = archive("a.pack", vec![entry(&["d", "s", "x"], b"1"), entry(&["e"], b"2"), entry(&["d", "y"], b"3")]);
    let file = extract_plan(&pf, &path(&["e"])).ok().unwrap();
    assert_eq!(file.len(), 1);
    assert!(file[0].path.is_empty());
    assert_eq!(file[0].data, b"2".to_vec());
    let folder = extract_plan(&pf, &path(&["d", "s"])).ok().unwrap();
    assert_eq!(folder.iter().map(|e| e.path.clone()).collect::<Vec<_>>(), vec![path(&["s", "x"])]);
    let all = extract_plan(&pf, &path(&["a.pack"])).ok().unwrap();
    assert_eq!(all.iter().map(|e| e.path.clone()).collect::<Vec<_>>(), paths(&pf));
    assert_eq!(extract_plan(&pf, &path(&["zz"])).err(), Some(PackError::NotFound));
}

#[test]
fn remove_entries_keeps_order() {
    let mut pf = archive("a.pack", vec![entry(&["a"], b"1"), entry(&["b"], b"2"), entry(&["c"], b"3")]);
    pf.remove_packedfile(1);
    assert_eq!(paths(&pf), vec![path(&["a"]), path(&["c"])]);
    pf.remove_all_packedfiles();
    assert!(pf.packed_files.is_empty());
    assert_eq!(pf.file_name, "a.pack");
}

#[test]
fn rename_collisions() {
    let mut pf = archive(
        "a.pack",
        vec![entry(&["a", "b"], b"1"), entry(&["a", "c", "d"], b"2"), entry(&["a", "e"], b"3"), entry(&["f", "g"], b"4")],
    );
    assert_eq!(rename_packed_file(&mut pf, &path(&["a", "b"]), "e"), Err(PackError::Duplicate));
    assert_eq!(rename_packed_file(&mut pf, &path(&["f"]), "a"), Err(PackError::Duplicate));
    assert_eq!(paths(&pf)[0], path(&["a", "b"]));
    rename_packed_file(&mut pf, &path(&["a", "b"]), "c").unwrap();
    assert_eq!(paths(&pf)[0], path(&["a", "c"]));
    assert_eq!(pf.packed_files.len(), 4);
}
