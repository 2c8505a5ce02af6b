//! Texture directories, texture records with their patch lists, the patch
//! name table, and the assembly of a texture from its patches.
use crate::bytes::{le_i16, le_u16, le_u32, read_i16, read_u16, read_u32};
use crate::error::GfxError;
use crate::sprite::{header_fits, sprite_left, sprite_ok, sprite_top, Sprite};
use crate::sprite_canvas::{blank, canvas_encodable, drawn, encoded, CanvasView, SpriteCanvas};
use vstd::prelude::*;
use vstd::slice::slice_subrange;

verus! {

/// The number of textures a directory declares.
pub open spec fn texture_count(d: Seq<u8>) -> int {
    le_u32(d, 0)
}

/// The buffer holds the count and the whole offset table.
pub open spec fn directory_ok(d: Seq<u8>) -> bool {
    &&& d.len() >= 4
    &&& d.len() >= 4 + 4 * texture_count(d)
}

/// Where texture `i` of a directory starts.
pub open spec fn texture_offset(d: Seq<u8>, i: int) -> int {
    le_u32(d, 4 + 4 * i)
}

/// Where texture `i` of a directory ends: where the next one starts, or at
/// the end of the buffer for the last.
pub open spec fn texture_end(d: Seq<u8>, i: int) -> int {
    if i + 1 < texture_count(d) {
        texture_offset(d, i + 1)
    } else {
        d.len() as int
    }
}

/// Texture `i` of a directory exists, its bounds lie in order inside the
/// buffer, and they hold a whole texture record.
pub open spec fn texture_entry_ok(d: Seq<u8>, i: int) -> bool {
    &&& 0 <= i < texture_count(d)
    &&& texture_offset(d, i) <= texture_end(d, i) <= d.len()
    &&& texture_fits(d.subrange(texture_offset(d, i), texture_end(d, i)))
}

/// The width declared by a texture record.
pub open spec fn texture_width(d: Seq<u8>) -> int {
    le_u16(d, 12)
}

/// The height declared by a texture record.
pub open spec fn texture_height(d: Seq<u8>) -> int {
    le_u16(d, 14)
}

/// The number of patches a texture record declares.
pub open spec fn patch_count(d: Seq<u8>) -> int {
    le_u16(d, 20)
}

/// Where patch record `k` of a texture record starts.
pub open spec fn patch_offset(k: int) -> int {
    22 + 10 * k
}

/// The buffer holds the texture header and all of its patch records.
pub open spec fn texture_fits(d: Seq<u8>) -> bool {
    d.len() >= 22 && d.len() >= 22 + 10 * patch_count(d)
}

/// The step direction of a patch record is 1 and its colormap 0.
pub open spec fn patch_fields_ok(p: Seq<u8>, at: int) -> bool {
    le_u16(p, at + 6) == 1 && le_u16(p, at + 8) == 0
}

/// A texture record that fits and whose patch records all hold the fixed
/// step direction and colormap.
pub open spec fn texture_ok(d: Seq<u8>) -> bool {
    &&& texture_fits(d)
    &&& forall|k: int| 0 <= k < patch_count(d) ==> #[trigger] patch_fields_ok(d, patch_offset(k))
}

/// The number of names a name table declares.
pub open spec fn pnames_count(d: Seq<u8>) -> int {
    le_u32(d, 0)
}

/// The buffer holds the count and all the names.
pub open spec fn pnames_ok(d: Seq<u8>) -> bool {
    &&& d.len() >= 4
    &&& d.len() >= 4 + 8 * pnames_count(d)
}

/// Name `i` of a name table.
pub open spec fn pname(d: Seq<u8>, i: int) -> Seq<u8> {
    d.subrange(4 + 8 * i, 12 + 8 * i)
}

/// A table of textures located by 32-bit offsets.
pub struct TextureDirectory<'a> {
    count: u32,
    data: &'a [u8],
}

impl<'a> View for TextureDirectory<'a> {
    type V = Seq<u8>;

    closed spec fn view(&self) -> Seq<u8> {
        self.data@
    }
}

impl<'a> TextureDirectory<'a> {
    #[verifier::type_invariant]
    closed spec fn inv(&self) -> bool {
        directory_ok(self.data@) && self.count == texture_count(self.data@)
    }

    /// Reads the directory header. Fails exactly when the buffer cannot hold
    /// the count and the offset table.
    pub fn new(data: &'a [u8]) -> (r: Result<TextureDirectory<'a>, GfxError>)
        ensures
            match r {
                Ok(t) => directory_ok(data@) && t@ == data@,
                Err(e) => !directory_ok(data@) && e == GfxError::MalformedAsset,
            },
    {
        if data.len() < 4 {
            return Err(GfxError::MalformedAsset);
        }
        let count = read_u32(data, 0);
        if (data.len() as u64) < 4 + 4 * count as u64 {
            return Err(GfxError::MalformedAsset);
        }
        Ok(TextureDirectory { count, data })
    }

    pub fn len(&self) -> (r: u32)
        ensures
            r == texture_count(self@),
    {
        proof {
            use_type_invariant(self);
        }
        self.count
    }

    /// Decodes texture `index`, from its offset up to the next texture's
    /// offset (or the end of the buffer for the last). Fails when there is no
    /// such texture, its bounds are out of order or outside the buffer, or
    /// they do not hold a whole texture record.
    pub fn texture(&self, index: u32) -> (r: Result<Texture<'a>, GfxError>)
        ensures
            match r {
                Ok(t) => {
                    &&& texture_entry_ok(self@, index as int)
                    &&& t@ == self@.subrange(
                        texture_offset(self@, index as int),
                        texture_end(self@, index as int),
                    )
                },
                Err(e) => !texture_entry_ok(self@, index as int) && e == GfxError::MalformedAsset,
            },
    {
        proof {
            use_type_invariant(self);
        }
        if index >= self.count {
            return Err(GfxError::MalformedAsset);
        }
        let n = self.data.len();
        let start = read_u32(self.data, 4 + 4 * index as usize) as usize;
        let end = if index + 1 < self.count {
            read_u32(self.data, 4 + 4 * (index as usize + 1)) as usize
        } else {
            n
        };
        if start > end || end > n {
            return Err(GfxError::MalformedAsset);
        }
        Texture::new(slice_subrange(self.data, start, end))
    }
}

/// One patch of a texture: where it goes and which name-table entry it uses.
pub struct Patch {
    pub origin_x: i16,
    pub origin_y: i16,
    pub patch_id: u16,
}

impl Patch {
    /// Decodes a 10-byte patch record. Fails when its step direction is not 1
    /// or its colormap is not 0.
    pub fn new(data: [u8; 10]) -> (r: Result<Patch, GfxError>)
        ensures
            match r {
                Ok(p) => {
                    &&& patch_fields_ok(data@, 0)
                    &&& p.origin_x == le_i16(data@, 0)
                    &&& p.origin_y == le_i16(data@, 2)
                    &&& p.patch_id == le_u16(data@, 4)
                },
                Err(e) => !patch_fields_ok(data@, 0) && e == GfxError::UnsupportedField,
            },
    {
        let d = data.as_slice();
        let step_dir = read_u16(d, 6);
        let colormap = read_u16(d, 8);
        if step_dir != 1 || colormap != 0 {
            return Err(GfxError::UnsupportedField);
        }
        Ok(Patch { origin_x: read_i16(d, 0), origin_y: read_i16(d, 2), patch_id: read_u16(d, 4) })
    }
}

/// A texture record: its name, size and patch list.
pub struct Texture<'a> {
    name: [u8; 8],
    width: u16,
    height: u16,
    count: u16,
    data: &'a [u8],
}

impl<'a> View for Texture<'a> {
    type V = Seq<u8>;

    closed spec fn view(&self) -> Seq<u8> {
        self.data@
    }
}

impl<'a> Texture<'a> {
    #[verifier::type_invariant]
    closed spec fn inv(&self) -> bool {
        &&& texture_fits(self.data@)
        &&& self.name@ == self.data@.subrange(0, 8)
        &&& self.width == texture_width(self.data@)
        &&& self.height == texture_height(self.data@)
        &&& self.count == patch_count(self.data@)
    }

    /// Decodes a texture record's header. Fails exactly when the buffer
    /// cannot hold the header and every patch record; the patch records
    /// themselves are checked when they are read.
    pub fn new(data: &'a [u8]) -> (r: Result<Texture<'a>, GfxError>)
        ensures
            match r {
                Ok(t) => texture_fits(data@) && t@ == data@,
                Err(e) => !texture_fits(data@) && e == GfxError::MalformedAsset,
            },
    {
        if data.len() < 22 {
            return Err(GfxError::MalformedAsset);
        }
        let width = read_u16(data, 12);
        let height = read_u16(data, 14);
        let count = read_u16(data, 20);
        if data.len() < 22 + 10 * count as usize {
            return Err(GfxError::MalformedAsset);
        }
        let name = [data[0], data[1], data[2], data[3], data[4], data[5], data[6], data[7]];
        assert(name@ =~= data@.subrange(0, 8));
        Ok(Texture { name, width, height, count, data })
    }

    /// Checks that every patch record holds step direction 1 and colormap 0.
    pub fn check_patches(&self) -> (r: Result<(), GfxError>)
        ensures
            match r {
                Ok(_) => texture_ok(self@),
                Err(e) => !texture_ok(self@) && e == GfxError::UnsupportedField,
            },
    {
        proof {
            use_type_invariant(self);
        }
        let data = self.data;
        let count = self.count;
        let mut k: usize = 0;
        while k < count as usize
            invariant
                data@ == self@,
                texture_fits(data@),
                count == patch_count(data@),
                k <= count,
                forall|j: int| 0 <= j < k ==> #[trigger] patch_fields_ok(data@, patch_offset(j)),
            decreases count - k,
        {
            let at = 22 + 10 * k;
            if read_u16(data, at + 6) != 1 || read_u16(data, at + 8) != 0 {
                assert(!patch_fields_ok(data@, patch_offset(k as int)));
                return Err(GfxError::UnsupportedField);
            }
            k += 1;
        }
        Ok(())
    }

    /// The 8-byte name, padded with zeros.
    pub fn name(&self) -> (r: [u8; 8])
        ensures
            r@ == self@.subrange(0, 8),
    {
        proof {
            use_type_invariant(self);
        }
        self.name
    }

    pub fn width(&self) -> (r: u16)
        ensures
            r == texture_width(self@),
    {
        proof {
            use_type_invariant(self);
        }
        self.width
    }

    pub fn height(&self) -> (r: u16)
        ensures
            r == texture_height(self@),
    {
        proof {
            use_type_invariant(self);
        }
        self.height
    }

    /// The number of patches.
    pub fn len(&self) -> (r: u16)
        ensures
            r == patch_count(self@),
    {
        proof {
            use_type_invariant(self);
        }
        self.count
    }

    /// Patch record `index`. Fails with `MalformedAsset` when there is no
    /// such record, and with `UnsupportedField` when its step direction is not
    /// 1 or its colormap is not 0.
    pub fn patch(&self, index: u16) -> (r: Result<Patch, GfxError>)
        ensures
            match r {
                Ok(p) => {
                    &&& index < patch_count(self@)
                    &&& patch_fields_ok(self@, patch_offset(index as int))
                    &&& p.origin_x == le_i16(self@, patch_offset(index as int))
                    &&& p.origin_y == le_i16(self@, patch_offset(index as int) + 2)
                    &&& p.patch_id == le_u16(self@, patch_offset(index as int) + 4)
                },
                Err(GfxError::MalformedAsset) => index >= patch_count(self@),
                Err(GfxError::UnsupportedField) => index < patch_count(self@) && !patch_fields_ok(
                    self@,
                    patch_offset(index as int),
                ),
                Err(_) => false,
            },
    {
        proof {
            use_type_invariant(self);
        }
        if index >= self.count {
            return Err(GfxError::MalformedAsset);
        }
        let d = self.data;
        let at: usize = 22 + 10 * index as usize;
        let record = [
            d[at],
            d[at + 1],
            d[at + 2],
            d[at + 3],
            d[at + 4],
            d[at + 5],
            d[at + 6],
            d[at + 7],
            d[at + 8],
            d[at + 9],
        ];
        proof {
            assert(record@ =~= self@.subrange(at as int, at + 10));
        }
        Patch::new(record)
    }

    /// The header and patch records of every texture fit in its buffer.
    pub fn well_formed(&self)
        ensures
            texture_fits(self@),
    {
        proof {
            use_type_invariant(self);
        }
    }
}

/// Reads a patch name table: a 32-bit count, then that many 8-byte names.
/// Fails exactly when the buffer cannot hold them.
pub fn parse_pnames(data: &[u8]) -> (r: Result<Vec<[u8; 8]>, GfxError>)
    ensures
        match r {
            Ok(names) => {
                &&& pnames_ok(data@)
                &&& names@.len() == pnames_count(data@)
                &&& forall|i: int| 0 <= i < names@.len() ==> (#[trigger] names@[i])@ == pname(data@, i)
            },
            Err(e) => !pnames_ok(data@) && e == GfxError::MalformedAsset,
        },
{
    if data.len() < 4 {
        return Err(GfxError::MalformedAsset);
    }
    let count = read_u32(data, 0);
    if (data.len() as u64) < 4 + 8 * count as u64 {
        return Err(GfxError::MalformedAsset);
    }
    let n = data.len();
    let mut names: Vec<[u8; 8]> = Vec::new();
    let mut i: usize = 0;
    while i < count as usize
        invariant
            n == data@.len(),
            pnames_ok(data@),
            count == pnames_count(data@),
            i <= count,
            names@.len() == i,
            forall|j: int| 0 <= j < i ==> (#[trigger] names@[j])@ == pname(data@, j),
        decreases count - i,
    {
        let at = 4 + 8 * i;
        let name = [
            data[at],
            data[at + 1],
            data[at + 2],
            data[at + 3],
            data[at + 4],
            data[at + 5],
            data[at + 6],
            data[at + 7],
        ];
        assert(name@ =~= pname(data@, i as int));
        names.push(name);
        i += 1;
    }
    Ok(names)
}

/// A source of patch sprites, looked up by their index in the patch name
/// table.
pub trait PatchProvider<'a> {
    /// The bytes of the sprite that patch `id` resolves to, if any. A source
    /// whose resolution is not stated leaves it unknown.
    open spec fn resolved(&self, id: u16) -> Option<Seq<u8>> {
        arbitrary()
    }

    /// The sprite for patch `id`, or `None` where there is none.
    fn patch(&self, id: u16) -> (r: Option<Sprite<'a>>)
        ensures
            match r {
                Some(s) => self.resolved(id) == Some(s@),
                None => self.resolved(id) is None,
            },
    ;
}

/// `wad::WadSlice`, a view of an archive's lumps; carried opaquely and read
/// only through `lump_by_name`.
#[verifier::external_type_specification]
#[verifier::external_body]
pub struct ExWadSlice<'a>(wad::WadSlice<'a>);

/// What an archive holds under an 8-byte name: the lump that `by_id` finds,
/// if any.
pub uninterp spec fn archive_lump(wad: wad::WadSlice, name: Seq<u8>) -> Option<Seq<u8>>;

/// Relies on `wad::WadSlice::by_id`: the lump of the first directory entry
/// with the given 8-byte name, if there is one and it lies inside the
/// archive. It reads only the archive's own immutable bytes.
#[verifier::external_body]
fn lump_by_name<'a>(wad: &wad::WadSlice<'a>, name: &[u8; 8]) -> (r: Option<&'a [u8]>)
    ensures
        match r {
            Some(b) => archive_lump(*wad, name@) == Some(b@),
            None => archive_lump(*wad, name@) is None,
        },
{
    wad.by_id(name)
}

/// Resolves each patch in the archive when it is asked for.
pub struct LazyPatchProvider<'a> {
    wad: wad::WadSlice<'a>,
    pnames: &'a [[u8; 8]],
}

impl<'a> LazyPatchProvider<'a> {
    pub fn new(wad: wad::WadSlice<'a>, pnames: &'a [[u8; 8]]) -> (r: LazyPatchProvider<'a>)
        ensures
            r.names() == pnames@,
            r.archive() == wad,
    {
        LazyPatchProvider { wad, pnames }
    }

    /// The patch name table.
    pub closed spec fn names(&self) -> Seq<[u8; 8]> {
        self.pnames@
    }

    /// The archive the patches are looked up in.
    pub closed spec fn archive(&self) -> wad::WadSlice<'a> {
        self.wad
    }

    /// What patch `id` resolves to: the lump stored under its name, where
    /// the name table has one and the lump holds a whole sprite header and
    /// directory.
    pub open spec fn lazy_resolved(&self, id: u16) -> Option<Seq<u8>> {
        if id < self.names().len() {
            match archive_lump(self.archive(), self.names()[id as int]@) {
                Some(b) => if header_fits(b) {
                    Some(b)
                } else {
                    None
                },
                None => None,
            }
        } else {
            None
        }
    }

    /// Looks up the name of patch `id` in the archive and decodes the lump.
    pub fn resolve(&self, id: u16) -> (r: Option<Sprite<'a>>)
        ensures
            match r {
                Some(s) => self.lazy_resolved(id) == Some(s@),
                None => self.lazy_resolved(id) is None,
            },
    {
        if id as usize >= self.pnames.len() {
            return None;
        }
        match lump_by_name(&self.wad, &self.pnames[id as usize]) {
            Some(bytes) => match Sprite::new(bytes) {
                Ok(s) => Some(s),
                Err(_) => None,
            },
            None => None,
        }
    }
}

impl<'a> PatchProvider<'a> for LazyPatchProvider<'a> {
    open spec fn resolved(&self, id: u16) -> Option<Seq<u8>> {
        self.lazy_resolved(id)
    }

    fn patch(&self, id: u16) -> (r: Option<Sprite<'a>>) {
        self.resolve(id)
    }
}

/// Every name of `pnames` is found in the archive.
pub open spec fn all_found(wad: wad::WadSlice, pnames: Seq<[u8; 8]>) -> bool {
    forall|i: int| 0 <= i < pnames.len() ==> (#[trigger] archive_lump(wad, pnames[i]@)) is Some
}

/// Resolves every patch name in the archive up front.
pub struct EagerPatchProvider<'a> {
    patches: Vec<&'a [u8]>,
}

impl<'a> EagerPatchProvider<'a> {
    /// Looks up every name of `pnames` in the archive, in order; `None`
    /// exactly when one is missing.
    pub fn new(wad: wad::WadSlice<'a>, pnames: &[[u8; 8]]) -> (r: Option<EagerPatchProvider<'a>>)
        ensures
            r is Some <==> all_found(wad, pnames@),
            r is Some ==> {
                &&& r->Some_0.lumps().len() == pnames@.len()
                &&& forall|i: int|
                    0 <= i < pnames@.len() ==> Some(#[trigger] r->Some_0.lumps()[i]) == archive_lump(
                        wad,
                        pnames@[i]@,
                    )
            },
    {
        let mut patches: Vec<&'a [u8]> = Vec::new();
        let mut i: usize = 0;
        while i < pnames.len()
            invariant
                i <= pnames@.len(),
                patches@.len() == i,
                forall|j: int|
                    0 <= j < i ==> Some((#[trigger] patches@[j])@) == archive_lump(wad, pnames@[j]@),
            decreases pnames@.len() - i,
        {
            match lump_by_name(&wad, &pnames[i]) {
                Some(bytes) => patches.push(bytes),
                None => {
                    assert(!all_found(wad, pnames@)) by {
                        assert(archive_lump(wad, pnames@[i as int]@) is None);
                    }
                    return None;
                },
            }
            i += 1;
        }
        let r = EagerPatchProvider { patches };
        assert forall|j: int| 0 <= j < pnames@.len() implies Some(#[trigger] r.lumps()[j])
            == archive_lump(wad, pnames@[j]@) by {
            assert(r.lumps()[j] == patches@[j]@);
        }
        assert(all_found(wad, pnames@)) by {
            assert forall|j: int| 0 <= j < pnames@.len() implies (#[trigger] archive_lump(
                wad,
                pnames@[j]@,
            )) is Some by {
                assert(Some(patches@[j]@) == archive_lump(wad, pnames@[j]@));
            }
        }
        Some(r)
    }

    /// The lump of each patch, in name-table order.
    pub closed spec fn lumps(&self) -> Seq<Seq<u8>> {
        self.patches@.map_values(|p: &'a [u8]| p@)
    }

    /// What patch `id` resolves to: its lump, where there is one and it
    /// holds a whole sprite header and directory.
    pub open spec fn eager_resolved(&self, id: u16) -> Option<Seq<u8>> {
        if id < self.lumps().len() && header_fits(self.lumps()[id as int]) {
            Some(self.lumps()[id as int])
        } else {
            None
        }
    }

    /// Decodes the lump of patch `id`.
    pub fn resolve(&self, id: u16) -> (r: Option<Sprite<'a>>)
        ensures
            match r {
                Some(s) => self.eager_resolved(id) == Some(s@),
                None => self.eager_resolved(id) is None,
            },
    {
        if id as usize >= self.patches.len() {
            return None;
        }
        match Sprite::new(self.patches[id as usize]) {
            Ok(s) => Some(s),
            Err(_) => None,
        }
    }
}

impl<'a> PatchProvider<'a> for EagerPatchProvider<'a> {
    open spec fn resolved(&self, id: u16) -> Option<Seq<u8>> {
        self.eager_resolved(id)
    }

    fn patch(&self, id: u16) -> (r: Option<Sprite<'a>>) {
        self.resolve(id)
    }
}

/// The bytes of each sprite.
pub open spec fn sprite_views<'a>(v: Seq<Sprite<'a>>) -> Seq<Seq<u8>> {
    v.map_values(|s: Sprite<'a>| s@)
}

/// Every sprite of `sprites` is well formed.
pub open spec fn all_sprites_ok(sprites: Seq<Seq<u8>>) -> bool {
    forall|i: int| 0 <= i < sprites.len() ==> sprite_ok(#[trigger] sprites[i])
}

/// The canvas of texture `d` after stamping `sprites[0 .. n]` in order, each
/// with its hotspot at its patch's origin moved by the sprite's own hotspot.
pub open spec fn composed(d: Seq<u8>, sprites: Seq<Seq<u8>>, n: int) -> CanvasView
    decreases n,
{
    if n <= 0 {
        blank(texture_width(d), texture_height(d))
    } else {
        let s = sprites[n - 1];
        drawn(
            composed(d, sprites, n - 1),
            s,
            le_i16(d, patch_offset(n - 1)) + sprite_left(s),
            le_i16(d, patch_offset(n - 1) + 2) + sprite_top(s),
        )
    }
}

/// The texture's canvas has no more cells than an allocation may hold.
pub open spec fn texture_size_ok(d: Seq<u8>) -> bool {
    texture_width(d) * texture_height(d) <= isize::MAX
}

/// What rendering texture `d` from `sprites` gives: the encoded canvas, or
/// the first failure among unsupported patch fields, an oversized canvas or
/// a malformed sprite, and an unencodable run.
pub open spec fn rendered_texture(d: Seq<u8>, sprites: Seq<Seq<u8>>) -> Result<Seq<u8>, GfxError> {
    let c = composed(d, sprites, patch_count(d));
    if !texture_ok(d) {
        Err(GfxError::UnsupportedField)
    } else if !texture_size_ok(d) || !all_sprites_ok(sprites) {
        Err(GfxError::MalformedAsset)
    } else if !canvas_encodable(c) {
        Err(GfxError::UnencodableRun)
    } else {
        Ok(encoded(c))
    }
}

/// The id of patch `k` of texture `d`.
pub open spec fn patch_id(d: Seq<u8>, k: int) -> u16 {
    le_u16(d, patch_offset(k) + 4) as u16
}

/// Stamps `sprites[k]` for each patch `k` of `texture`, in order, on a blank
/// canvas of the texture's size, and encodes the result as a sprite.
pub fn render_patches<'a>(texture: &Texture, sprites: &Vec<Sprite<'a>>) -> (r: Result<
    Vec<u8>,
    GfxError,
>)
    requires
        sprites@.len() == patch_count(texture@),
    ensures
        match r {
            Ok(b) => rendered_texture(texture@, sprite_views(sprites@)) == Ok::<Seq<u8>, GfxError>(b@),
            Err(e) => rendered_texture(texture@, sprite_views(sprites@)) == Err::<Seq<u8>, GfxError>(e),
        },
{
    let ghost d = texture@;
    let ghost views = sprite_views(sprites@);
    texture.well_formed();
    match texture.check_patches() {
        Ok(_) => {},
        Err(e) => {
            return Err(e);
        },
    }
    let width = texture.width();
    let height = texture.height();
    assert(width as int * height as int <= 65535 * 65535) by (nonlinear_arith)
        requires
            width <= 65535,
            height <= 65535,
    ;
    if width as u64 * height as u64 > isize::MAX as u64 {
        return Err(GfxError::MalformedAsset);
    }
    let mut canvas = SpriteCanvas::new(width, height);
    let mut k: usize = 0;
    while k < sprites.len()
        invariant
            d == texture@,
            texture_ok(d),
            views == sprite_views(sprites@),
            sprites@.len() == patch_count(d),
            k <= sprites@.len(),
            canvas.wf(),
            canvas@ == composed(d, views, k as int),
            forall|i: int| 0 <= i < k ==> sprite_ok(#[trigger] views[i]),
        decreases sprites@.len() - k,
    {
        proof {
            assert(patch_fields_ok(d, patch_offset(k as int)));
        }
        let patch = match texture.patch(k as u16) {
            Ok(p) => p,
            Err(e) => {
                return Err(e);
            },
        };
        let sprite = &sprites[k];
        let pos_x = patch.origin_x as i32 + sprite.left() as i32;
        let pos_y = patch.origin_y as i32 + sprite.top() as i32;
        match canvas.draw_at(pos_x, pos_y, sprite) {
            Ok(_) => {},
            Err(e) => {
                assert(!all_sprites_ok(views)) by {
                    assert(views[k as int] == sprite@);
                }
                return Err(e);
            },
        }
        assert(views[k as int] == sprite@);
        k += 1;
    }
    assert(all_sprites_ok(views));
    canvas.make_sprite()
}

/// Every patch of texture `d` resolves through `provider`.
pub open spec fn all_resolved<'a, P: PatchProvider<'a>>(provider: &P, d: Seq<u8>) -> bool {
    forall|k: int| 0 <= k < patch_count(d) ==> (#[trigger] provider.resolved(patch_id(d, k))) is Some
}

/// The sprites that the patches of texture `d` resolve to, in order.
pub open spec fn resolved_sprites<'a, P: PatchProvider<'a>>(provider: &P, d: Seq<u8>) -> Seq<
    Seq<u8>,
> {
    Seq::new(patch_count(d) as nat, |k: int| provider.resolved(patch_id(d, k)).unwrap())
}

/// Assembles a texture. Fails with `UnsupportedField` when a patch record
/// holds another step direction than 1 or another colormap than 0; then
/// asks `patch_provider` for the sprite of each patch id, in declared order,
/// and fails with `UnresolvedPatch` at the first it cannot supply; otherwise
/// gives what [`render_patches`] gives on the sprites supplied.
pub fn render_texture<'a, P: PatchProvider<'a>>(texture: Texture, patch_provider: &P) -> (r: Result<
    Vec<u8>,
    GfxError,
>)
    ensures
        match r {
            Ok(b) => {
                &&& texture_ok(texture@)
                &&& all_resolved(patch_provider, texture@)
                &&& rendered_texture(texture@, resolved_sprites(patch_provider, texture@)) == Ok::<
                    Seq<u8>,
                    GfxError,
                >(b@)
            },
            Err(GfxError::UnsupportedField) => !texture_ok(texture@),
            Err(GfxError::UnresolvedPatch) => texture_ok(texture@) && !all_resolved(
                patch_provider,
                texture@,
            ),
            Err(e) => {
                &&& texture_ok(texture@)
                &&& all_resolved(patch_provider, texture@)
                &&& rendered_texture(texture@, resolved_sprites(patch_provider, texture@)) == Err::<
                    Seq<u8>,
                    GfxError,
                >(e)
            },
        },
{
    let ghost d = texture@;
    match texture.check_patches() {
        Ok(_) => {},
        Err(e) => {
            return Err(e);
        },
    }
    let count = texture.len();
    let mut sprites: Vec<Sprite> = Vec::new();
    let mut k: u16 = 0;
    while k < count
        invariant
            d == texture@,
            texture_ok(d),
            count == patch_count(d),
            k <= count,
            sprites@.len() == k,
            forall|i: int|
                0 <= i < k ==> patch_provider.resolved(patch_id(d, i)) == Some(
                    (#[trigger] sprites@[i])@,
                ),
        decreases count - k,
    {
        proof {
            assert(patch_fields_ok(d, patch_offset(k as int)));
        }
        let patch = match texture.patch(k) {
            Ok(p) => p,
            Err(e) => {
                return Err(e);
            },
        };
        match patch_provider.patch(patch.patch_id) {
            Some(sprite) => {
                sprites.push(sprite);
            },
            None => {
                assert(patch_provider.resolved(patch_id(d, k as int)) is None);
                return Err(GfxError::UnresolvedPatch);
            },
        }
        k += 1;
    }
    proof {
        assert(sprite_views(sprites@) =~= resolved_sprites(patch_provider, d)) by {
            assert forall|i: int| 0 <= i < count implies sprite_views(sprites@)[i]
                == #[trigger] resolved_sprites(patch_provider, d)[i] by {
                assert(patch_provider.resolved(patch_id(d, i)) == Some(sprites@[i]@));
            }
        }
        assert forall|i: int| 0 <= i < count implies (#[trigger] patch_provider.resolved(
            patch_id(d, i),
        )) is Some by {
            assert(patch_provider.resolved(patch_id(d, i)) == Some(sprites@[i]@));
        }
    }
    render_patches(&texture, &sprites)
}

} // verus!
