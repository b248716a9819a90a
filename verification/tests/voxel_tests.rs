use voxel_world_rust::voxel::{
    decode_voxels, encode_voxels, PaletteError, Sd16, Voxel, VoxelId, VoxelIdInfo, VoxelMaterial,
    VoxelPalette, NULL_MATERIAL, SD16_NEG_ONE, SD16_ONE,
};

fn reference_infos() -> Vec<VoxelIdInfo> {
    vec![
        VoxelIdInfo { is_empty: true, material: VoxelMaterial::null() },
        VoxelIdInfo { is_empty: false, material: VoxelMaterial(0) },
        VoxelIdInfo { is_empty: false, material: VoxelMaterial(1) },
        VoxelIdInfo { is_empty: false, material: VoxelMaterial(2) },
        VoxelIdInfo { is_empty: false, material: VoxelMaterial(3) },
    ]
}

#[test]
fn default_voxel_is_ambient() {
    let v = Voxel::default();
    assert_eq!(v.voxel_id, VoxelId(0));
    assert_eq!(v.distance, Sd16(32767));
    assert!(!v.is_negative());
    assert_eq!(VoxelId::default(), VoxelId(0));
}

#[test]
fn voxel_accessors() {
    let v = Voxel::new(VoxelId(3), Sd16::neg_one());
    assert_eq!(v.voxel_id, VoxelId(3));
    assert_eq!(v.distance, Sd16(SD16_NEG_ONE));
    assert_eq!(SD16_NEG_ONE, -32767);
    assert_eq!(Sd16::one(), Sd16(SD16_ONE));
    assert!(v.is_negative());
    assert!(!Voxel::new(VoxelId(3), Sd16(0)).is_negative());
    assert_eq!(v.get_type_index(), 3);
    assert_eq!(VoxelMaterial::null(), VoxelMaterial(255));
    assert_eq!(NULL_MATERIAL, u8::MAX);
    let info = VoxelIdInfo { is_empty: false, material: VoxelMaterial(2) };
    assert!(!info.is_empty());
    assert_eq!(info.material(), VoxelMaterial(2));
}

#[test]
fn palette_lookup() {
    let palette = VoxelPalette::new(reference_infos()).unwrap();
    assert_eq!(palette.len(), 5);
    assert_eq!(palette.get(VoxelId(0)), Some(VoxelIdInfo { is_empty: true, material: VoxelMaterial(255) }));
    assert_eq!(palette.get(VoxelId(3)), Some(VoxelIdInfo { is_empty: false, material: VoxelMaterial(2) }));
    assert_eq!(palette.get(VoxelId(5)), None);
    let v = Voxel::new(VoxelId(2), Sd16::neg_one());
    assert_eq!(palette.info_of(&v).unwrap().material, VoxelMaterial(1));
}

#[test]
fn palette_errors() {
    assert_eq!(VoxelPalette::new(Vec::new()).unwrap_err(), PaletteError::NoEntries);
    let solid_first = vec![VoxelIdInfo { is_empty: false, material: VoxelMaterial(0) }];
    assert_eq!(VoxelPalette::new(solid_first).unwrap_err(), PaletteError::FirstEntrySolid);
    let mut many = reference_infos();
    while many.len() <= 256 {
        many.push(VoxelIdInfo { is_empty: false, material: VoxelMaterial(7) });
    }
    assert_eq!(VoxelPalette::new(many).unwrap_err(), PaletteError::TooManyEntries);
}

#[test]
fn voxels_encode_to_three_bytes_each() {
    let voxels = vec![
        Voxel::new(VoxelId(0), Sd16(32767)),
        Voxel::new(VoxelId(2), Sd16(-32767)),
        Voxel::new(VoxelId(255), Sd16(0)),
        Voxel::new(VoxelId(7), Sd16(i16::MIN)),
    ];
    let bytes = encode_voxels(&voxels);
    assert_eq!(bytes, vec![0, 0xff, 0xff, 2, 1, 0, 255, 0, 0x80, 7, 0, 0]);
    assert_eq!(decode_voxels(&bytes), voxels);
    assert_eq!(decode_voxels(&vec![1, 2]), Vec::new());
}
