use rpfm::editor::{patch_rigid_model_attila_to_warhammer, update_packed_file_data_loc, update_packed_file_data_rigid};
use rpfm::loc::{Loc, LocEntry};
use rpfm::model::{PackError, PackFileId, PackedFile};
use rpfm::rigidmodel::{LodHeader, RigidModel};
use rpfm::tree::new_packfile;

fn row(key: &str, text: &str, tooltip: bool) -> LocEntry {
    LocEntry { key: key.to_string(), text: text.to_string(), tooltip }
}

fn rows(l: &Loc) -> Vec<(String, String, bool)> {
    l.entries.iter().map(|e| (e.key.clone(), e.text.clone(), e.tooltip)).collect()
}

#[test]
fn loc_single_row_layout() {
    let l = Loc { entries: vec![row("hello", "Hello", false)] };
    let b = l.save().unwrap();
    assert_eq!(b.len(), 39);
    assert_eq!(&b[0..14], &[0xff, 0xfe, b'L', b'O', b'C', 0, 1, 0, 0, 0, 1, 0, 0, 0]);
    assert_eq!(&b[14..18], &[5, 0, b'h', 0]);
    assert_eq!(b[38], 0);
    let back = Loc::read(&b).ok().unwrap();
    assert_eq!(rows(&back), vec![("hello".to_string(), "Hello".to_string(), false)]);
}

#[test]
fn loc_round_trip_edge_rows() {
    let long: String = std::iter::repeat('x').take(0xffff).collect();
    let l = Loc {
        entries: vec![row("", "", true), row("New", "\u{1f600} \u{e9}", true), row(&long, "t", true)],
    };
    let b = l.save().unwrap();
    let back = Loc::read(&b).ok().unwrap();
    assert_eq!(rows(&back), rows(&l));
    assert_eq!(back.save().unwrap(), b);
    let none = Loc { entries: vec![] };
    assert_eq!(Loc::read(&none.save().unwrap()).ok().unwrap().entries.len(), 0);
}

#[test]
fn loc_errors() {
    let too_long: String = std::iter::repeat('x').take(0x10000).collect();
    assert_eq!(Loc { entries: vec![row(&too_long, "", false)] }.save().err(), Some(PackError::BadLength));
    let good = Loc { entries: vec![row("k", "v", true)] }.save().unwrap();
    let mut bom = good.clone();
    bom[0] = 0;
    assert_eq!(Loc::read(&bom).err(), Some(PackError::BadFormat));
    assert_eq!(Loc::read(&good[..10]).err(), Some(PackError::BadFormat));
    for cut in [14, 15, 17, 18, 21, 22] {
        assert_eq!(Loc::read(&good[..cut]).err(), Some(PackError::BadFormat));
    }
    let mut tip = good.clone();
    let last = tip.len() - 1;
    tip[last] = 2;
    assert_eq!(Loc::read(&tip).err(), Some(PackError::BadFormat));
    let mut surrogate = good.clone();
    surrogate[16] = 0x00;
    surrogate[17] = 0xd8;
    assert_eq!(Loc::read(&surrogate).err(), Some(PackError::BadEncoding));
}

fn lod(start: u32) -> LodHeader {
    LodHeader {
        groups_count: 1,
        vertices_data_length: 2,
        indices_data_length: 3,
        start_offset: start,
        zoom_factor: 0x447a_0000,
        mysterious_data_1: None,
        mysterious_data_2: None,
    }
}

fn attila_model() -> RigidModel {
    RigidModel {
        version: 6,
        lods_count: 2,
        base_skeleton: "humanoid01".to_string(),
        lods: vec![lod(100), lod(200)],
        data: vec![9, 8, 7],
    }
}

#[test]
fn rigid_patch_attila_to_warhammer() {
    let mut m = attila_model();
    assert_eq!(patch_rigid_model_attila_to_warhammer(&mut m).unwrap(), "RigidModel patched successfully.");
    assert_eq!(m.version, 7);
    assert_eq!(m.lods[0].mysterious_data_1, Some(0));
    assert_eq!(m.lods[0].mysterious_data_2, Some(0));
    assert_eq!(m.lods[1].mysterious_data_1, Some(1));
    assert_eq!(m.lods[1].mysterious_data_2, Some(0));
    assert_eq!(m.lods[0].start_offset, 116);
    assert_eq!(m.lods[1].start_offset, 216);
    assert_eq!(patch_rigid_model_attila_to_warhammer(&mut m), Err(PackError::Unsupported));
    let mut other = attila_model();
    other.version = 5;
    assert_eq!(patch_rigid_model_attila_to_warhammer(&mut other), Err(PackError::Unsupported));
    let mut big = attila_model();
    big.lods[1].start_offset = u32::MAX - 3;
    assert_eq!(patch_rigid_model_attila_to_warhammer(&mut big), Err(PackError::BadFormat));
    assert_eq!(big.version, 6);
}

#[test]
fn rigid_save_and_read() {
    let m = attila_model();
    let b = m.save().unwrap();
    assert_eq!(b.len(), 4 + 4 + 4 + 120 + 2 * 20 + 3);
    assert_eq!(&b[0..4], b"RMV2");
    assert_eq!(&b[12..22], b"humanoid01");
    assert!(b[22..132].iter().all(|&x| x == 0));
    let back = RigidModel::read(&b).ok().unwrap();
    assert_eq!(back.lods, m.lods);
    assert_eq!(back.base_skeleton, "humanoid01");
    assert_eq!(back.data, vec![9, 8, 7]);
    let mut w = attila_model();
    patch_rigid_model_attila_to_warhammer(&mut w).unwrap();
    let wb = w.save().unwrap();
    assert_eq!(wb.len(), 132 + 2 * 28 + 3);
    assert_eq!(RigidModel::read(&wb).ok().unwrap().lods, w.lods);
    assert_eq!(RigidModel::read(&b[..150]).err(), Some(PackError::BadFormat));
    let mut v5 = b.clone();
    v5[4] = 5;
    assert_eq!(RigidModel::read(&v5).err(), Some(PackError::Unsupported));
    let mut pad = b.clone();
    pad[40] = 1;
    assert_eq!(RigidModel::read(&pad).err(), Some(PackError::BadEncoding));
    let long = RigidModel { base_skeleton: "s".repeat(121), ..attila_model() };
    assert_eq!(long.save().err(), Some(PackError::BadLength));
}

#[test]
fn update_entry_from_inner_formats() {
    let mut pf = new_packfile("a.pack".to_string(), PackFileId::Pfh5);
    pf.add_packedfiles(vec![
        PackedFile { path: vec!["t.loc".to_string()], size: 0, timestamp: 0, data: vec![] },
        PackedFile { path: vec!["m.rigid_model_v2".to_string()], size: 0, timestamp: 0, data: vec![] },
    ])
    .unwrap();
    let l = Loc { entries: vec![row("hello", "Hello", false)] };
    update_packed_file_data_loc(&l, &mut pf, 0).unwrap();
    assert_eq!(pf.packed_files[0].size, 39);
    assert_eq!(pf.packed_files[0].data, l.save().unwrap());
    let m = attila_model();
    assert_eq!(
        update_packed_file_data_rigid(&m, &mut pf, 1).unwrap(),
        "RigidModel PackedFile updated successfully."
    );
    assert_eq!(pf.packed_files[1].data, m.save().unwrap());
    let long = RigidModel { base_skeleton: "s".repeat(121), ..attila_model() };
    assert_eq!(update_packed_file_data_rigid(&long, &mut pf, 1), Err(PackError::BadLength));
    assert_eq!(pf.packed_files[1].data, m.save().unwrap());
}
