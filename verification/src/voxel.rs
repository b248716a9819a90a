//! Voxels, their type identifiers and materials, the palette that maps one
//! to the other, and the byte form in which chunks are compressed.

use vstd::prelude::*;

verus! {

/// The type of a voxel; 0 is the empty type.
#[derive(Clone, Copy, Debug, PartialEq, Eq, Hash, Structural)]
pub struct VoxelId(pub u8);

/// The material layer that a voxel type is drawn with.
#[derive(Clone, Copy, Debug, PartialEq, Eq, Hash, Structural)]
pub struct VoxelMaterial(pub u8);

/// A signed distance in `[-1, 1]` with 16 bits of precision: the stored
/// integer counts steps of `1 / 32767`.
#[derive(Clone, Copy, Debug, PartialEq, Eq, Hash, Structural)]
pub struct Sd16(pub i16);

/// The stored value of the distance `1`.
pub const SD16_ONE: i16 = 32767;

/// The stored value of the distance `-1`.
pub const SD16_NEG_ONE: i16 = -32767;

/// The material of the palette entry that stands for "no material".
pub const NULL_MATERIAL: u8 = 255;

/// The smallest unit of the world: a type and a signed distance to the
/// surface, negative inside solid matter.
#[derive(Clone, Copy, Debug, PartialEq, Eq, Hash, Structural)]
pub struct Voxel {
    pub voxel_id: VoxelId,
    pub distance: Sd16,
}

/// What the palette records of a voxel type.
#[derive(Clone, Copy, Debug, PartialEq, Eq, Hash, Structural)]
pub struct VoxelIdInfo {
    pub is_empty: bool,
    pub material: VoxelMaterial,
}

impl Default for VoxelId {
    fn default() -> (id: VoxelId)
        ensures
            id == VoxelId(0),
    {
        VoxelId(0)
    }
}

impl Sd16 {
    /// The distance `1`: well outside the surface.
    pub fn one() -> (d: Sd16)
        ensures
            d == Sd16(SD16_ONE),
    {
        Sd16(SD16_ONE)
    }

    /// The distance `-1`: well inside the surface.
    pub fn neg_one() -> (d: Sd16)
        ensures
            d == Sd16(SD16_NEG_ONE),
    {
        Sd16(SD16_NEG_ONE)
    }
}

impl VoxelMaterial {
    /// The material of the empty palette entry.
    pub fn null() -> (m: VoxelMaterial)
        ensures
            m == VoxelMaterial(NULL_MATERIAL),
    {
        VoxelMaterial(NULL_MATERIAL)
    }
}

/// The voxel of untouched space: empty, at distance `1`.
pub open spec fn ambient_voxel() -> Voxel {
    Voxel { voxel_id: VoxelId(0), distance: Sd16(SD16_ONE) }
}

impl Voxel {
    /// The voxel of type `voxel_id` at distance `distance` from the surface.
    pub fn new(voxel_id: VoxelId, distance: Sd16) -> (v: Voxel)
        ensures
            v == (Voxel { voxel_id, distance }),
    {
        Voxel { voxel_id, distance }
    }

    /// Whether the voxel lies inside solid matter.
    pub fn is_negative(self) -> (b: bool)
        ensures
            b == (self.distance.0 < 0),
    {
        self.distance.0 < 0
    }

    /// The index of the voxel's type in the palette.
    pub fn get_type_index(&self) -> (i: usize)
        ensures
            i == self.voxel_id.0,
    {
        self.voxel_id.0 as usize
    }
}

impl Default for Voxel {
    fn default() -> (v: Voxel)
        ensures
            v == ambient_voxel(),
    {
        Voxel { voxel_id: VoxelId(0), distance: Sd16(SD16_ONE) }
    }
}

impl VoxelIdInfo {
    /// Whether the type stands for empty space.
    pub fn is_empty(&self) -> (b: bool)
        ensures
            b == self.is_empty,
    {
        self.is_empty
    }

    /// The material of the type.
    pub fn material(&self) -> (m: VoxelMaterial)
        ensures
            m == self.material,
    {
        self.material
    }
}

/// Why a list of type descriptions is not a palette.
#[derive(Clone, Copy, Debug, PartialEq, Eq, Structural)]
pub enum PaletteError {
    /// The list has no entry for type 0.
    NoEntries,
    /// The entry of type 0 is not marked empty.
    FirstEntrySolid,
    /// The list has more entries than there are voxel types.
    TooManyEntries,
    /// A palette was registered before.
    AlreadyRegistered,
}

/// The material descriptions of the voxel types, indexed by type id. Entry 0
/// stands for empty space.
#[derive(Debug)]
pub struct VoxelPalette {
    infos: Vec<VoxelIdInfo>,
}

/// Whether `infos` can serve as a palette, and if not, why.
pub open spec fn palette_check(infos: Seq<VoxelIdInfo>) -> Result<(), PaletteError> {
    if infos.len() == 0 {
        Err(PaletteError::NoEntries)
    } else if infos.len() > 256 {
        Err(PaletteError::TooManyEntries)
    } else if !infos[0].is_empty {
        Err(PaletteError::FirstEntrySolid)
    } else {
        Ok(())
    }
}

impl VoxelPalette {
    /// The entries, by type id.
    pub closed spec fn view(&self) -> Seq<VoxelIdInfo> {
        self.infos@
    }

    /// A palette has an empty entry 0 and at most 256 entries.
    pub open spec fn wf(&self) -> bool {
        palette_check(self@) is Ok
    }

    /// Whether type `id` has an entry.
    pub open spec fn knows(&self, id: VoxelId) -> bool {
        (id.0 as int) < self@.len()
    }

    /// Makes a palette of `infos`, whose position in the list is the type id.
    pub fn new(infos: Vec<VoxelIdInfo>) -> (r: Result<VoxelPalette, PaletteError>)
        ensures
            match r {
                Ok(p) => p.wf() && p@ == infos@ && palette_check(infos@) is Ok,
                Err(e) => palette_check(infos@) == Err::<(), PaletteError>(e),
            },
    {
        if infos.len() == 0 {
            Err(PaletteError::NoEntries)
        } else if infos.len() > 256 {
            Err(PaletteError::TooManyEntries)
        } else if !infos[0].is_empty {
            Err(PaletteError::FirstEntrySolid)
        } else {
            Ok(VoxelPalette { infos })
        }
    }

    /// The number of voxel types described.
    pub fn len(&self) -> (n: usize)
        ensures
            n == self@.len(),
    {
        self.infos.len()
    }

    /// The description of type `id`, if the palette has one.
    pub fn get(&self, id: VoxelId) -> (r: Option<VoxelIdInfo>)
        ensures
            r == if self.knows(id) {
                Some(self@[id.0 as int])
            } else {
                None
            },
    {
        let i = id.0 as usize;
        if i < self.infos.len() {
            Some(self.infos[i])
        } else {
            None
        }
    }

    /// The description of the type of `voxel`, if the palette has one.
    pub fn info_of(&self, voxel: &Voxel) -> (r: Option<VoxelIdInfo>)
        ensures
            r == if self.knows(voxel.voxel_id) {
                Some(self@[voxel.voxel_id.0 as int])
            } else {
                None
            },
    {
        self.get(voxel.voxel_id)
    }
}

/// The number of bytes that one voxel takes in a chunk's byte form.
pub const VOXEL_BYTES: usize = 3;

/// Byte `k` of the byte form of `v`: the type id, then the distance, shifted
/// to be non-negative, low byte first.
pub open spec fn voxel_byte(v: Voxel, k: int) -> u8 {
    if k == 0 {
        v.voxel_id.0
    } else if k == 1 {
        ((v.distance.0 + 32768) % 256) as u8
    } else {
        ((v.distance.0 + 32768) / 256) as u8
    }
}

/// The voxel whose byte form is `id, lo, hi`.
pub open spec fn voxel_of_bytes(id: u8, lo: u8, hi: u8) -> Voxel {
    Voxel { voxel_id: VoxelId(id), distance: Sd16((hi * 256 + lo - 32768) as i16) }
}

/// The byte form of a sequence of voxels: three bytes each, in order.
pub open spec fn encoded(voxels: Seq<Voxel>) -> Seq<u8> {
    Seq::new(3 * voxels.len(), |i: int| voxel_byte(voxels[i / 3], i % 3))
}

/// The voxels that a byte form stands for; trailing bytes that do not make
/// up a voxel are ignored.
pub open spec fn decoded(bytes: Seq<u8>) -> Seq<Voxel> {
    Seq::new(
        (bytes.len() / 3) as nat,
        |i: int| voxel_of_bytes(bytes[3 * i], bytes[3 * i + 1], bytes[3 * i + 2]),
    )
}

/// Decoding the byte form of a voxel gives the voxel back.
pub proof fn lemma_voxel_round_trip(v: Voxel)
    ensures
        voxel_of_bytes(voxel_byte(v, 0), voxel_byte(v, 1), voxel_byte(v, 2)) == v,
{
    let d = v.distance.0 + 32768;
    assert(0 <= d < 65536);
    assert(0 <= d / 256 < 256 && 0 <= d % 256 < 256 && (d / 256) * 256 + d % 256 == d);
}

/// Decoding the byte form of a sequence of voxels gives the sequence back.
pub proof fn lemma_round_trip(voxels: Seq<Voxel>)
    ensures
        encoded(voxels).len() == 3 * voxels.len(),
        decoded(encoded(voxels)) == voxels,
{
    let bytes = encoded(voxels);
    assert(decoded(bytes).len() == voxels.len());
    assert forall|i: int| 0 <= i < voxels.len() implies decoded(bytes)[i] == voxels[i] by {
        lemma_voxel_round_trip(voxels[i]);
        assert((3 * i) / 3 == i && (3 * i) % 3 == 0);
        assert((3 * i + 1) / 3 == i && (3 * i + 1) % 3 == 1);
        assert((3 * i + 2) / 3 == i && (3 * i + 2) % 3 == 2);
    }
    assert(decoded(bytes) =~= voxels);
}

/// The byte form of `voxels`.
pub fn encode_voxels(voxels: &Vec<Voxel>) -> (bytes: Vec<u8>)
    ensures
        bytes@ == encoded(voxels@),
{
    let mut bytes: Vec<u8> = Vec::new();
    let mut i: usize = 0;
    while i < voxels.len()
        invariant
            i <= voxels.len(),
            bytes@.len() == 3 * i,
            forall|j: int| 0 <= j < 3 * i ==> bytes@[j] == voxel_byte(voxels@[j / 3], j % 3),
        decreases voxels.len() - i,
    {
        let v = voxels[i];
        let d: u32 = (v.distance.0 as i32 + 32768) as u32;
        bytes.push(v.voxel_id.0);
        bytes.push((d % 256) as u8);
        bytes.push((d / 256) as u8);
        proof {
            assert forall|j: int| 0 <= j < 3 * (i + 1) implies bytes@[j] == voxel_byte(
                voxels@[j / 3],
                j % 3,
            ) by {
                if j >= 3 * i {
                    assert(j / 3 == i);
                }
            }
        }
        i += 1;
    }
    assert(bytes@ =~= encoded(voxels@));
    bytes
}

/// The voxels that `bytes` stands for.
pub fn decode_voxels(bytes: &Vec<u8>) -> (voxels: Vec<Voxel>)
    ensures
        voxels@ == decoded(bytes@),
{
    let n = bytes.len() / 3;
    let mut voxels: Vec<Voxel> = Vec::new();
    let mut i: usize = 0;
    while i < n
        invariant
            i <= n,
            n == bytes.len() / 3,
            voxels@.len() == i,
            forall|j: int|
                0 <= j < i ==> voxels@[j] == voxel_of_bytes(
                    bytes@[3 * j],
                    bytes@[3 * j + 1],
                    bytes@[3 * j + 2],
                ),
        decreases n - i,
    {
        let id = bytes[3 * i];
        let lo = bytes[3 * i + 1];
        let hi = bytes[3 * i + 2];
        let d: i32 = (hi as i32) * 256 + (lo as i32) - 32768;
        voxels.push(Voxel { voxel_id: VoxelId(id), distance: Sd16(d as i16) });
        i += 1;
    }
    assert(voxels@ =~= decoded(bytes@));
    voxels
}

} // verus!
