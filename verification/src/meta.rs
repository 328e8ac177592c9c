use crate::error::DecodeError;
use crate::stream::{le_u16, le_u32, ByteStream};
use crate::varint::{lemma_varint_len_in_range, read_string, string_of};
use vstd::prelude::*;
use vstd::std_specs::iter::IteratorSpec;

verus! {

/// One named sub-image of an atlas: where it lies in the atlas, and how it was
/// trimmed from the canvas it was drawn on.
#[derive(Clone, Debug, PartialEq, Eq)]
pub struct Sprite {
    /// Source path, with forward slashes.
    pub path: String,
    /// Left edge of the crop rectangle in the atlas.
    pub x: u16,
    /// Top edge of the crop rectangle in the atlas.
    pub y: u16,
    /// Width of the crop rectangle.
    pub width: u16,
    /// Height of the crop rectangle.
    pub height: u16,
    /// Horizontal trim offset. Recorded, not used by the crop.
    pub offset_x: u16,
    /// Vertical trim offset. Recorded, not used by the crop.
    pub offset_y: u16,
    /// Width before trimming. Recorded, not used by the crop.
    pub real_width: u16,
    /// Height before trimming. Recorded, not used by the crop.
    pub real_height: u16,
}

/// The sprite table of one atlas image, in stream order.
#[derive(Clone, Debug, PartialEq, Eq)]
pub struct DataFile {
    /// Logical path of the atlas image, with forward slashes.
    pub logical_path: String,
    /// The sprites, in the order in which the stream holds them.
    pub sprites: Vec<Sprite>,
}

/// A whole atlas index: three header fields that are carried along without
/// being interpreted, and the sprite tables.
#[derive(Clone, Debug, PartialEq, Eq)]
pub struct AtlasMetadata {
    /// First header field, a 32-bit integer.
    pub version: u32,
    /// Second header field, a string.
    pub description: String,
    /// Third header field, 32 bits of flags.
    pub flags: u32,
    /// The sprite tables, in the order in which the stream holds them.
    pub data_files: Vec<DataFile>,
}

/// The mathematical content of a [`Sprite`].
pub struct SpriteView {
    pub path: Seq<char>,
    pub x: int,
    pub y: int,
    pub width: int,
    pub height: int,
    pub offset_x: int,
    pub offset_y: int,
    pub real_width: int,
    pub real_height: int,
}

/// The mathematical content of a [`DataFile`].
pub struct DataFileView {
    pub logical_path: Seq<char>,
    pub sprites: Seq<SpriteView>,
}

/// The mathematical content of an [`AtlasMetadata`].
pub struct AtlasMetadataView {
    pub version: int,
    pub description: Seq<char>,
    pub flags: int,
    pub data_files: Seq<DataFileView>,
}

impl View for Sprite {
    type V = SpriteView;

    open spec fn view(&self) -> SpriteView {
        SpriteView {
            path: self.path@,
            x: self.x as int,
            y: self.y as int,
            width: self.width as int,
            height: self.height as int,
            offset_x: self.offset_x as int,
            offset_y: self.offset_y as int,
            real_width: self.real_width as int,
            real_height: self.real_height as int,
        }
    }
}

/// The contents of a sequence of sprites.
pub open spec fn sprite_views(sprites: Seq<Sprite>) -> Seq<SpriteView> {
    sprites.map_values(|s: Sprite| s@)
}

impl View for DataFile {
    type V = DataFileView;

    open spec fn view(&self) -> DataFileView {
        DataFileView { logical_path: self.logical_path@, sprites: sprite_views(self.sprites@) }
    }
}

/// The contents of a sequence of sprite tables.
pub open spec fn data_file_views(files: Seq<DataFile>) -> Seq<DataFileView> {
    files.map_values(|f: DataFile| f@)
}

impl View for AtlasMetadata {
    type V = AtlasMetadataView;

    open spec fn view(&self) -> AtlasMetadataView {
        AtlasMetadataView {
            version: self.version as int,
            description: self.description@,
            flags: self.flags as int,
            data_files: data_file_views(self.data_files@),
        }
    }
}

/// `path` with every backslash replaced by a forward slash.
pub open spec fn normalized(path: Seq<char>) -> Seq<char> {
    path.map_values(
        |c: char|
            if c == '\\' {
                '/'
            } else {
                c
            },
    )
}

/// The size in bytes of the eight 16-bit fields of a sprite record.
pub const SPRITE_FIELDS_LEN: usize = 16;

/// What reading a sprite record from `s` gives: the sprite and the size of the
/// record in bytes. A record is a length-prefixed path followed by eight
/// 16-bit little-endian integers: `x`, `y`, `width`, `height`, `offset_x`,
/// `offset_y`, `real_width`, `real_height`.
pub open spec fn sprite_of(s: Seq<u8>) -> Result<(SpriteView, nat), DecodeError> {
    match string_of(s) {
        Err(e) => Err(e),
        Ok((path, n)) => {
            if s.len() - n < SPRITE_FIELDS_LEN {
                Err(DecodeError::Truncated)
            } else {
                let fields = s.skip(n as int);
                Ok(
                    (
                        SpriteView {
                            path: normalized(path),
                            x: le_u16(fields),
                            y: le_u16(fields.skip(2)),
                            width: le_u16(fields.skip(4)),
                            height: le_u16(fields.skip(6)),
                            offset_x: le_u16(fields.skip(8)),
                            offset_y: le_u16(fields.skip(10)),
                            real_width: le_u16(fields.skip(12)),
                            real_height: le_u16(fields.skip(14)),
                        },
                        n + SPRITE_FIELDS_LEN as nat,
                    ),
                )
            }
        },
    }
}

/// What reading `count` sprite records in a row from `s` gives: the sprites in
/// stream order and the size of the records in bytes. The first failure among
/// the records is the failure of the whole.
pub open spec fn sprites_of(s: Seq<u8>, count: nat) -> Result<(Seq<SpriteView>, nat), DecodeError>
    decreases count,
{
    if count == 0 {
        Ok((Seq::empty(), 0))
    } else {
        match sprites_of(s, (count - 1) as nat) {
            Err(e) => Err(e),
            Ok((front, n)) => match sprite_of(s.skip(n as int)) {
                Err(e) => Err(e),
                Ok((last, m)) => Ok((front.push(last), n + m)),
            },
        }
    }
}

/// What reading one sprite table from `s` gives: a length-prefixed logical
/// path, a 16-bit little-endian sprite count, and that many sprite records.
pub open spec fn data_file_of(s: Seq<u8>) -> Result<(DataFileView, nat), DecodeError> {
    match string_of(s) {
        Err(e) => Err(e),
        Ok((path, n)) => {
            if s.len() - n < 2 {
                Err(DecodeError::Truncated)
            } else {
                let count = le_u16(s.skip(n as int)) as nat;
                match sprites_of(s.skip(n as int + 2), count) {
                    Err(e) => Err(e),
                    Ok((sprites, m)) => Ok(
                        (DataFileView { logical_path: normalized(path), sprites }, n + 2 + m),
                    ),
                }
            }
        },
    }
}

/// What reading `count` sprite tables in a row from `s` gives.
pub open spec fn data_files_of(s: Seq<u8>, count: nat) -> Result<
    (Seq<DataFileView>, nat),
    DecodeError,
>
    decreases count,
{
    if count == 0 {
        Ok((Seq::empty(), 0))
    } else {
        match data_files_of(s, (count - 1) as nat) {
            Err(e) => Err(e),
            Ok((front, n)) => match data_file_of(s.skip(n as int)) {
                Err(e) => Err(e),
                Ok((last, m)) => Ok((front.push(last), n + m)),
            },
        }
    }
}

/// What reading an atlas index from `s` gives: a 32-bit little-endian integer,
/// a length-prefixed string, 32 bits of flags, a 16-bit little-endian count of
/// sprite tables, and that many sprite tables.
pub open spec fn metadata_of(s: Seq<u8>) -> Result<(AtlasMetadataView, nat), DecodeError> {
    if s.len() < 4 {
        Err(DecodeError::Truncated)
    } else {
        match string_of(s.skip(4)) {
            Err(e) => Err(e),
            Ok((description, n)) => {
                if s.len() - 4 - n < 6 {
                    Err(DecodeError::Truncated)
                } else {
                    let count = le_u16(s.skip(8 + n as int)) as nat;
                    match data_files_of(s.skip(10 + n as int), count) {
                        Err(e) => Err(e),
                        Ok((data_files, m)) => Ok(
                            (
                                AtlasMetadataView {
                                    version: le_u32(s),
                                    description,
                                    flags: le_u32(s.skip(4 + n as int)),
                                    data_files,
                                },
                                10 + n + m,
                            ),
                        ),
                    }
                }
            },
        }
    }
}

/// Calls `String::push`. Trusted: the character is appended to the string.
#[verifier::external_body]
fn push_char(text: &mut String, c: char)
    ensures
        final(text)@ == old(text)@.push(c),
{
    text.push(c)
}

/// Replaces every backslash of `path` by a forward slash.
pub fn normalize_separators(path: &str) -> (res: String)
    ensures
        res@ == normalized(path@),
{
    let mut res = String::new();
    let mut chars = path.chars();
    let ghost mut done: int = 0;
    loop
        invariant
            chars.obeys_prophetic_iter_laws(),
            0 <= done <= path@.len(),
            chars.remaining() == path@.skip(done),
            res@ == normalized(path@.take(done)),
        decreases path@.len() - done,
    {
        match chars.next() {
            None => {
                assert(path@.take(done) =~= path@);
                return res;
            },
            Some(c) => {
                let slash = if c == '\\' {
                    '/'
                } else {
                    c
                };
                push_char(&mut res, slash);
                proof {
                    assert(path@.skip(done).drop_first() =~= path@.skip(done + 1));
                    assert(normalized(path@.take(done + 1)) =~= normalized(path@.take(done)).push(
                        slash,
                    ));
                    done = done + 1;
                }
            },
        }
    }
}

/// A string does not reach past the end of the bytes that hold it.
pub proof fn lemma_string_in_range(s: Seq<u8>)
    ensures
        string_of(s) matches Ok((_, n)) ==> 1 <= n <= s.len(),
{
    lemma_varint_len_in_range(s);
}

/// A sprite record does not reach past the end of the bytes that hold it.
pub proof fn lemma_sprite_in_range(s: Seq<u8>)
    ensures
        sprite_of(s) matches Ok((_, n)) ==> SPRITE_FIELDS_LEN < n <= s.len(),
{
    lemma_string_in_range(s);
}

impl Sprite {
    /// Reads one sprite record. Backslashes in its path become forward slashes.
    ///
    /// On failure the stream is left where it was.
    pub fn from_reader(reader: &mut ByteStream) -> (res: Result<Sprite, DecodeError>)
        ensures
            match res {
                Ok(sprite) => sprite_of(old(reader)@) matches Ok((view, size)) && sprite@ == view
                    && final(reader)@ == old(reader)@.skip(size as int),
                Err(e) => sprite_of(old(reader)@) == Err::<(SpriteView, nat), DecodeError>(e)
                    && final(reader)@ == old(reader)@,
            },
    {
        let ghost start = reader@;
        let mut cur = *reader;
        let raw: String = match read_string(&mut cur) {
            Ok(text) => text,
            Err(e) => {
                return Err(e);
            },
        };
        let path = normalize_separators(raw.as_str());
        let ghost fields = cur@;
        proof {
            lemma_string_in_range(start);
        }
        let x: u16 = match cur.read_u16_le() {
            Ok(v) => v,
            Err(e) => {
                return Err(e);
            },
        };
        let y: u16 = match cur.read_u16_le() {
            Ok(v) => v,
            Err(e) => {
                return Err(e);
            },
        };
        assert(cur@ =~= fields.skip(4));
        let width: u16 = match cur.read_u16_le() {
            Ok(v) => v,
            Err(e) => {
                return Err(e);
            },
        };
        assert(cur@ =~= fields.skip(6));
        let height: u16 = match cur.read_u16_le() {
            Ok(v) => v,
            Err(e) => {
                return Err(e);
            },
        };
        assert(cur@ =~= fields.skip(8));
        let offset_x: u16 = match cur.read_u16_le() {
            Ok(v) => v,
            Err(e) => {
                return Err(e);
            },
        };
        assert(cur@ =~= fields.skip(10));
        let offset_y: u16 = match cur.read_u16_le() {
            Ok(v) => v,
            Err(e) => {
                return Err(e);
            },
        };
        assert(cur@ =~= fields.skip(12));
        let real_width: u16 = match cur.read_u16_le() {
            Ok(v) => v,
            Err(e) => {
                return Err(e);
            },
        };
        assert(cur@ =~= fields.skip(14));
        let real_height: u16 = match cur.read_u16_le() {
            Ok(v) => v,
            Err(e) => {
                return Err(e);
            },
        };
        proof {
            let n = string_of(start)->Ok_0.1;
            assert(cur@ =~= start.skip(n as int + SPRITE_FIELDS_LEN as int));
        }
        *reader = cur;
        Ok(Sprite { path, x, y, width, height, offset_x, offset_y, real_width, real_height })
    }
}

/// Once reading a row of sprite records has failed, reading a longer row
/// fails in the same way.
pub proof fn lemma_sprites_failure_stays(s: Seq<u8>, failed: nat, count: nat)
    requires
        failed <= count,
        sprites_of(s, failed) is Err,
    ensures
        sprites_of(s, count) == sprites_of(s, failed),
    decreases count,
{
    if failed < count {
        lemma_sprites_failure_stays(s, failed, (count - 1) as nat);
    }
}

/// A row of sprite records does not reach past the end of the bytes that hold
/// it, and it gives as many sprites as were asked for.
pub proof fn lemma_sprites_in_range(s: Seq<u8>, count: nat)
    ensures
        sprites_of(s, count) matches Ok((sprites, n)) ==> n <= s.len() && sprites.len() == count,
    decreases count,
{
    if count > 0 {
        lemma_sprites_in_range(s, (count - 1) as nat);
        if let Ok((front, n)) = sprites_of(s, (count - 1) as nat) {
            lemma_sprite_in_range(s.skip(n as int));
        }
    }
}

/// A sprite table does not reach past the end of the bytes that hold it.
pub proof fn lemma_data_file_in_range(s: Seq<u8>)
    ensures
        data_file_of(s) matches Ok((_, n)) ==> 3 <= n <= s.len(),
{
    lemma_string_in_range(s);
    if let Ok((path, n)) = string_of(s) {
        if s.len() - n >= 2 {
            lemma_sprites_in_range(s.skip(n as int + 2), le_u16(s.skip(n as int)) as nat);
        }
    }
}

/// Once reading a row of sprite tables has failed, reading a longer row fails
/// in the same way.
pub proof fn lemma_data_files_failure_stays(s: Seq<u8>, failed: nat, count: nat)
    requires
        failed <= count,
        data_files_of(s, failed) is Err,
    ensures
        data_files_of(s, count) == data_files_of(s, failed),
    decreases count,
{
    if failed < count {
        lemma_data_files_failure_stays(s, failed, (count - 1) as nat);
    }
}

/// The contents of a row of sprites that grows by one.
proof fn lemma_sprite_views_push(sprites: Seq<Sprite>, last: Sprite)
    ensures
        sprite_views(sprites.push(last)) == sprite_views(sprites).push(last@),
{
    assert(sprite_views(sprites.push(last)) =~= sprite_views(sprites).push(last@));
}

/// The contents of a row of sprite tables that grows by one.
proof fn lemma_data_file_views_push(files: Seq<DataFile>, last: DataFile)
    ensures
        data_file_views(files.push(last)) == data_file_views(files).push(last@),
{
    assert(data_file_views(files.push(last)) =~= data_file_views(files).push(last@));
}

/// Reading one more sprite table after a row of them.
proof fn lemma_data_files_grow(
    s: Seq<u8>,
    count: nat,
    front: Seq<DataFileView>,
    used: nat,
    last: DataFileView,
    size: nat,
)
    requires
        data_files_of(s, count) == Ok::<(Seq<DataFileView>, nat), DecodeError>((front, used)),
        data_file_of(s.skip(used as int)) == Ok::<(DataFileView, nat), DecodeError>((last, size)),
    ensures
        data_files_of(s, count + 1) == Ok::<(Seq<DataFileView>, nat), DecodeError>(
            (front.push(last), used + size),
        ),
{
}

/// Reads `count` sprite records in a row.
fn read_sprites(reader: &mut ByteStream, count: u16) -> (res: Result<Vec<Sprite>, DecodeError>)
    ensures
        match res {
            Ok(sprites) => sprites_of(old(reader)@, count as nat) matches Ok((views, size))
                && sprite_views(sprites@) == views && size <= old(reader)@.len()
                && final(reader)@ == old(reader)@.skip(size as int),
            Err(e) => sprites_of(old(reader)@, count as nat) == Err::<
                (Seq<SpriteView>, nat),
                DecodeError,
            >(e) && final(reader)@ == old(reader)@,
        },
{
    let ghost start = reader@;
    let ghost mut used: nat = 0;
    let mut cur = *reader;
    let mut sprites: Vec<Sprite> = Vec::new();
    let mut i: u16 = 0;
    proof {
        assert(start.skip(0) =~= start);
        assert(sprite_views(sprites@) =~= Seq::<SpriteView>::empty());
    }
    while i < count
        invariant
            i <= count,
            start == old(reader)@,
            reader@ == start,
            used <= start.len(),
            cur@ == start.skip(used as int),
            sprites_of(start, i as nat) == Ok::<(Seq<SpriteView>, nat), DecodeError>(
                (sprite_views(sprites@), used),
            ),
        decreases count - i,
    {
        let sprite = match Sprite::from_reader(&mut cur) {
            Ok(s) => s,
            Err(e) => {
                proof {
                    lemma_sprites_failure_stays(start, (i + 1) as nat, count as nat);
                }
                return Err(e);
            },
        };
        proof {
            let size = sprite_of(start.skip(used as int))->Ok_0.1;
            lemma_sprite_in_range(start.skip(used as int));
            assert(cur@ =~= start.skip(used as int + size as int));
            lemma_sprite_views_push(sprites@, sprite);
            used = used + size;
        }
        sprites.push(sprite);
        i = i + 1;
    }
    *reader = cur;
    Ok(sprites)
}

impl DataFile {
    /// Reads one sprite table: its logical path, its sprite count and its
    /// sprites. Backslashes in the logical path become forward slashes.
    ///
    /// On failure the stream is left where it was.
    pub fn from_reader(reader: &mut ByteStream) -> (res: Result<DataFile, DecodeError>)
        ensures
            match res {
                Ok(file) => data_file_of(old(reader)@) matches Ok((view, size)) && file@ == view
                    && final(reader)@ == old(reader)@.skip(size as int),
                Err(e) => data_file_of(old(reader)@) == Err::<(DataFileView, nat), DecodeError>(e)
                    && final(reader)@ == old(reader)@,
            },
    {
        let ghost start = reader@;
        let mut cur = *reader;
        let raw: String = match read_string(&mut cur) {
            Ok(text) => text,
            Err(e) => {
                return Err(e);
            },
        };
        let logical_path = normalize_separators(raw.as_str());
        let ghost n = string_of(start)->Ok_0.1;
        proof {
            lemma_string_in_range(start);
        }
        let count: u16 = match cur.read_u16_le() {
            Ok(v) => v,
            Err(e) => {
                return Err(e);
            },
        };
        assert(cur@ =~= start.skip(n as int + 2));
        let sprites = match read_sprites(&mut cur, count) {
            Ok(v) => v,
            Err(e) => {
                return Err(e);
            },
        };
        proof {
            let m = sprites_of(start.skip(n as int + 2), count as nat)->Ok_0.1;
            assert(cur@ =~= start.skip((n + 2 + m) as int));
        }
        *reader = cur;
        Ok(DataFile { logical_path, sprites })
    }
}

/// Reads `count` sprite tables in a row.
fn read_data_files(reader: &mut ByteStream, count: u16) -> (res: Result<
    Vec<DataFile>,
    DecodeError,
>)
    ensures
        match res {
            Ok(files) => data_files_of(old(reader)@, count as nat) matches Ok((views, size))
                && data_file_views(files@) == views && size <= old(reader)@.len()
                && final(reader)@ == old(reader)@.skip(size as int),
            Err(e) => data_files_of(old(reader)@, count as nat) == Err::<
                (Seq<DataFileView>, nat),
                DecodeError,
            >(e) && final(reader)@ == old(reader)@,
        },
{
    let ghost start = reader@;
    let ghost mut used: nat = 0;
    let mut cur = *reader;
    let mut files: Vec<DataFile> = Vec::new();
    let mut i: u16 = 0;
    proof {
        assert(start.skip(0) =~= start);
        assert(data_file_views(files@) =~= Seq::<DataFileView>::empty());
    }
    while i < count
        invariant
            i <= count,
            start == old(reader)@,
            reader@ == start,
            used <= start.len(),
            cur@ == start.skip(used as int),
            data_files_of(start, i as nat) == Ok::<(Seq<DataFileView>, nat), DecodeError>(
                (data_file_views(files@), used),
            ),
        decreases count - i,
    {
        let ghost here = cur@;
        let file = match DataFile::from_reader(&mut cur) {
            Ok(f) => f,
            Err(e) => {
                proof {
                    lemma_data_files_failure_stays(start, (i + 1) as nat, count as nat);
                }
                return Err(e);
            },
        };
        proof {
            let size = data_file_of(here)->Ok_0.1;
            lemma_data_file_in_range(here);
            assert(cur@ == start.skip(used as int + size as int)) by {
                assert(here.skip(size as int) =~= start.skip(used as int + size as int));
            }
            lemma_data_file_views_push(files@, file);
            lemma_data_files_grow(start, i as nat, data_file_views(files@), used, file@, size);
            used = used + size;
        }
        files.push(file);
        i = i + 1;
    }
    *reader = cur;
    Ok(files)
}

/// Reads an atlas index: the three header fields, the count of sprite tables
/// and the sprite tables.
///
/// On failure the stream is left where it was.
pub fn parse_metadata(reader: &mut ByteStream) -> (res: Result<AtlasMetadata, DecodeError>)
    ensures
        match res {
            Ok(meta) => metadata_of(old(reader)@) matches Ok((view, size)) && meta@ == view
                && final(reader)@ == old(reader)@.skip(size as int),
            Err(e) => metadata_of(old(reader)@) == Err::<(AtlasMetadataView, nat), DecodeError>(e)
                && final(reader)@ == old(reader)@,
        },
{
    let ghost start = reader@;
    let mut cur = *reader;
    let version: u32 = match cur.read_u32_le() {
        Ok(v) => v,
        Err(e) => {
            return Err(e);
        },
    };
    let description: String = match read_string(&mut cur) {
        Ok(text) => text,
        Err(e) => {
            return Err(e);
        },
    };
    let ghost n = string_of(start.skip(4))->Ok_0.1;
    proof {
        lemma_string_in_range(start.skip(4));
        assert(cur@ =~= start.skip(4 + n as int));
    }
    let flags: u32 = match cur.read_u32_le() {
        Ok(v) => v,
        Err(e) => {
            return Err(e);
        },
    };
    assert(cur@ =~= start.skip(8 + n as int));
    let count: u16 = match cur.read_u16_le() {
        Ok(v) => v,
        Err(e) => {
            return Err(e);
        },
    };
    assert(cur@ =~= start.skip(10 + n as int));
    let data_files = match read_data_files(&mut cur, count) {
        Ok(v) => v,
        Err(e) => {
            return Err(e);
        },
    };
    proof {
        let m = data_files_of(start.skip(10 + n as int), count as nat)->Ok_0.1;
        assert(cur@ =~= start.skip((10 + n + m) as int));
    }
    *reader = cur;
    Ok(AtlasMetadata { version, description, flags, data_files })
}

} // verus!
