//! Editor services: writing an edited inner format back into the entry that
//! holds it, and the Attila to Warhammer RigidModel patch.

use vstd::prelude::*;
use vstd::string::StringExecFns;
use crate::loc::{Loc, loc_encodable, loc_encode};
use crate::model::{PackError, PackFile, with_entries};
use crate::rigidmodel::{LodHeader, RigidModel, RigidModelView, rigid_encodable, rigid_encode};
use crate::tree::{replace_data, with_data};

verus! {

/// Re-encodes `packed_file_data_decoded` and makes it the bytes of the
/// entry at `index`. Fails with `BadLength`, leaving the archive as it was,
/// when the table cannot be encoded or its bytes do not fit a 32-bit size.
pub fn update_packed_file_data_loc(
    packed_file_data_decoded: &Loc,
    pack_file: &mut PackFile,
    index: usize,
) -> (r: Result<(), PackError>)
    requires
        old(pack_file).wf(),
        index < old(pack_file).packed_files.len(),
    ensures
        final(pack_file).wf(),
        ({
            let b = loc_encode(packed_file_data_decoded@);
            if loc_encodable(packed_file_data_decoded@) && b.len() <= u32::MAX {
                r is Ok && final(pack_file)@ == with_entries(
                    old(pack_file)@,
                    old(pack_file)@.entries.update(index as int, with_data(old(pack_file)@.entries[index as int], b)),
                )
            } else {
                r == Err::<(), PackError>(PackError::BadLength) && final(pack_file)@ == old(pack_file)@
            }
        }),
{
    let data = packed_file_data_decoded.save()?;
    if data.len() > u32::MAX as usize {
        return Err(PackError::BadLength);
    }
    replace_data(pack_file, index, data);
    Ok(())
}

/// Re-encodes `packed_file_data_decoded` and makes it the bytes of the
/// entry at `index`. Fails with `BadLength`, leaving the archive as it was,
/// when the skeleton name is too long or the bytes do not fit a 32-bit size.
pub fn update_packed_file_data_rigid(
    packed_file_data_decoded: &RigidModel,
    pack_file: &mut PackFile,
    index: usize,
) -> (r: Result<String, PackError>)
    requires
        old(pack_file).wf(),
        index < old(pack_file).packed_files.len(),
    ensures
        final(pack_file).wf(),
        ({
            let b = rigid_encode(packed_file_data_decoded@);
            if rigid_encodable(packed_file_data_decoded@) && b.len() <= u32::MAX {
                r matches Ok(msg) && msg@ == "RigidModel PackedFile updated successfully."@
                    && final(pack_file)@ == with_entries(
                    old(pack_file)@,
                    old(pack_file)@.entries.update(index as int, with_data(old(pack_file)@.entries[index as int], b)),
                )
            } else {
                r == Err::<String, PackError>(PackError::BadLength) && final(pack_file)@ == old(pack_file)@
            }
        }),
{
    let data = packed_file_data_decoded.save()?;
    if data.len() > u32::MAX as usize {
        return Err(PackError::BadLength);
    }
    replace_data(pack_file, index, data);
    Ok(String::from_str("RigidModel PackedFile updated successfully."))
}

/// Every level-of-detail offset still fits 32 bits once moved by eight
/// bytes per level of detail.
pub open spec fn offsets_fit(m: RigidModelView) -> bool {
    forall|i: int| 0 <= i < m.lods.len() ==> (#[trigger] m.lods[i]).start_offset + 8 * m.lods_count <= u32::MAX
}

/// A version 6 level-of-detail header as version 7 has it at position `i`.
pub open spec fn warhammer_lod(l: LodHeader, i: int, count: u32) -> LodHeader {
    LodHeader {
        mysterious_data_1: Some(i as u32),
        mysterious_data_2: Some(0),
        start_offset: (l.start_offset + 8 * count) as u32,
        ..l
    }
}

/// Turns a version 6 (Attila) model into a version 7 (Warhammer) one: sets
/// the version to 7, numbers the levels of detail in their first extra
/// field, zeroes the second, and moves every offset by eight bytes per level
/// of detail. Fails with `Unsupported` on any other version and with
/// `BadFormat` when a moved offset would not fit 32 bits; the model is then
/// left as it was.
pub fn patch_rigid_model_attila_to_warhammer(rigid_model: &mut RigidModel) -> (r: Result<String, PackError>)
    ensures
        ({
            let m = old(rigid_model)@;
            if m.version != 6 {
                r == Err::<String, PackError>(PackError::Unsupported) && final(rigid_model)@ == m
            } else if !offsets_fit(m) {
                r == Err::<String, PackError>(PackError::BadFormat) && final(rigid_model)@ == m
            } else {
                r matches Ok(msg) && msg@ == "RigidModel patched successfully."@
                    && final(rigid_model)@ == (RigidModelView {
                    version: 7,
                    lods: Seq::new(m.lods.len(), |i: int| warhammer_lod(m.lods[i], i, m.lods_count)),
                    ..m
                })
            }
        }),
{
    if rigid_model.version != 6 {
        return Err(PackError::Unsupported);
    }
    let shift: u64 = 8 * (rigid_model.lods_count as u64);
    let mut i: usize = 0;
    while i < rigid_model.lods.len()
        invariant
            0 <= i <= rigid_model.lods@.len(),
            rigid_model@ == old(rigid_model)@,
            old(rigid_model)@.version == 6,
            shift == 8 * rigid_model.lods_count,
            forall|j: int| 0 <= j < i ==> (#[trigger] rigid_model.lods@[j]).start_offset + 8 * rigid_model.lods_count <= u32::MAX,
        decreases rigid_model.lods.len() - i,
    {
        if rigid_model.lods[i].start_offset as u64 + shift > u32::MAX as u64 {
            assert(rigid_model@.lods[i as int].start_offset + 8 * rigid_model@.lods_count > u32::MAX);
            assert(!offsets_fit(old(rigid_model)@));
            return Err(PackError::BadFormat);
        }
        i += 1;
    }
    let ghost m = rigid_model@;
    rigid_model.version = 7;
    let count = rigid_model.lods_count;
    let mut k: usize = 0;
    assert(rigid_model@.lods =~= Seq::new(m.lods.len(), |j: int| if j < 0 { warhammer_lod(m.lods[j], j, count) } else { m.lods[j] }));
    while k < rigid_model.lods.len()
        invariant
            0 <= k <= m.lods.len(),
            rigid_model.lods@.len() == m.lods.len(),
            count == m.lods_count,
            shift == 8 * m.lods_count,
            offsets_fit(m),
            rigid_model@ == (RigidModelView {
                version: 7,
                lods: Seq::new(m.lods.len(), |j: int| if j < k { warhammer_lod(m.lods[j], j, count) } else { m.lods[j] }),
                ..m
            }),
        decreases m.lods.len() - k,
    {
        let l = rigid_model.lods[k];
        assert(l == m.lods[k as int]);
        assert(l.start_offset + 8 * count <= u32::MAX);
        let moved = LodHeader {
            mysterious_data_1: Some(#[verifier::truncate] (k as u32)),
            mysterious_data_2: Some(0),
            start_offset: (l.start_offset as u64 + shift) as u32,
            ..l
        };
        rigid_model.lods.set(k, moved);
        k += 1;
        assert(rigid_model@.lods =~= Seq::new(m.lods.len(), |j: int| if j < k { warhammer_lod(m.lods[j], j, count) } else { m.lods[j] }));
    }
    assert(rigid_model@.lods =~= Seq::new(m.lods.len(), |i: int| warhammer_lod(m.lods[i], i, m.lods_count)));
    Ok(String::from_str("RigidModel patched successfully."))
}

} // verus!
