//! What a PNG file says of its image before the image data begins, as far as
//! it decides whether the image can be decoded in memory.
//!
//! After a signature of eight bytes the file is a row of chunks. A chunk is the
//! length of its data and its type, four bytes each, then the data, then four
//! bytes of checksum.
use vstd::prelude::*;

verus! {

/// The type of the header, as the number that its four letters spell.
pub const IHDR: u32 = 0x4948_4452;

/// The type of a palette.
pub const PLTE: u32 = 0x504c_5445;

/// The type of a chunk of transparency.
pub const TRNS: u32 = 0x7452_4e53;

/// The type of an animation's control chunk.
pub const ACTL: u32 = 0x6163_544c;

/// The type of a frame's control chunk.
pub const FCTL: u32 = 0x6663_544c;

/// The type of image data.
pub const IDAT: u32 = 0x4944_4154;

/// The type of the image data of a later frame.
pub const FDAT: u32 = 0x6664_4154;

/// The color of an indexed image, as the header states it.
pub const INDEXED: u8 = 3;

/// What the chunks before the image data say.
#[derive(Clone, Copy, Debug, PartialEq, Eq)]
pub struct Preamble {
    pub width: u32,
    pub height: u32,
    /// The color as the header states it: 0 gray, 2 red, green and blue, 3
    /// indexed, 4 gray with alpha, 6 red, green and blue with alpha.
    pub color: u8,
    pub interlaced: bool,
    /// The length of the palette in bytes.
    pub palette: u32,
    pub transparent: bool,
    /// The number of frames of an animation.
    pub frames: u32,
    /// The width and height of the first frame, where it has a control chunk.
    pub frame: Option<(u32, u32)>,
}

/// The number that the four bytes from `at` on spell, the highest first.
pub open spec fn big_endian(file: Seq<u8>, at: int) -> int {
    file[at] * 0x100_0000 + file[at + 1] * 0x1_0000 + file[at + 2] * 0x100 + file[at + 3]
}

/// What the chunks from `at` on add to what was seen, up to the image data.
/// `None` where the file ends before any image data.
pub open spec fn preamble(file: Seq<u8>, at: int, seen: Preamble) -> Option<Preamble>
    decreases file.len() - at,
{
    if file.len() < at + 8 {
        None
    } else if big_endian(file, at + 4) == IDAT || big_endian(file, at + 4) == FDAT {
        Some(seen)
    } else if file.len() < at + 12 + big_endian(file, at) {
        None
    } else {
        preamble(file, at + 12 + big_endian(file, at), seen.with_chunk(file, at))
    }
}

/// What the whole file says before its image data.
pub open spec fn file_preamble(file: Seq<u8>) -> Option<Preamble> {
    preamble(file, 8, Preamble::nothing())
}

/// Whether the file says nothing before its image data that rules out decoding
/// it in memory.
pub open spec fn is_decodable(file: Seq<u8>) -> bool {
    file_preamble(file) matches Some(p) ==> p.fits()
}

impl Preamble {
    /// What is known before the first chunk.
    pub open spec fn nothing() -> Preamble {
        Preamble {
            width: 0,
            height: 0,
            color: 0,
            interlaced: false,
            palette: 0,
            transparent: false,
            frames: 0,
            frame: None,
        }
    }

    /// What is known after the chunk at `at`. An empty chunk says nothing, nor
    /// does one that is too short for what it should hold.
    pub open spec fn with_chunk(self, file: Seq<u8>, at: int) -> Preamble {
        let len: int = big_endian(file, at);
        let kind: int = big_endian(file, at + 4);
        if kind == IHDR && len >= 13 {
            Preamble {
                width: big_endian(file, at + 8) as u32,
                height: big_endian(file, at + 12) as u32,
                color: file[at + 17],
                interlaced: file[at + 20] != 0,
                ..self
            }
        } else if kind == PLTE && len > 0 {
            Preamble { palette: len as u32, ..self }
        } else if kind == TRNS && len > 0 {
            Preamble { transparent: true, ..self }
        } else if kind == ACTL && len >= 8 {
            Preamble { frames: big_endian(file, at + 8) as u32, ..self }
        } else if kind == FCTL && len >= 26 {
            Preamble {
                frame: Some(
                    (big_endian(file, at + 12) as u32, big_endian(file, at + 16) as u32),
                ),
                ..self
            }
        } else {
            self
        }
    }

    /// The bytes of a decoded pixel, one for each sample. Transparency adds an
    /// alpha sample, and an indexed pixel becomes red, green and blue.
    pub open spec fn pixel_bytes(self) -> int {
        if self.color == 0 && !self.transparent {
            1
        } else if self.color == 0 || self.color == 4 {
            2
        } else if self.color == 6 || self.transparent {
            4
        } else {
            3
        }
    }

    /// Whether memory can address the whole image.
    pub open spec fn is_addressable(self) -> bool {
        self.pixel_bytes() * (self.width * self.height) <= isize::MAX
    }

    /// Whether the palette of an indexed image is made of whole entries, three
    /// bytes each, and of no more of them than a byte can number.
    pub open spec fn palette_fits(self) -> bool {
        self.color == INDEXED ==> self.palette % 3 == 0 && self.palette <= 768
    }

    /// Whether the frames can be counted. An image that is no frame of the
    /// animation is one more.
    pub open spec fn frames_fit(self) -> bool {
        self.frame is None ==> self.frames + 1 <= usize::MAX
    }

    /// The width and height of the first frame: those of the whole image,
    /// where it has none of its own.
    pub open spec fn first_frame(self) -> (u32, u32) {
        match self.frame {
            Some(size) => size,
            None => (self.width, self.height),
        }
    }

    /// Whether the bits of an interlaced image can be counted up to the last
    /// pixel of the first frame, in rows as long as those of the whole image.
    pub open spec fn positions_fit(self) -> bool {
        let (w, h): (u32, u32) = self.first_frame();
        self.interlaced ==> 8 * (self.pixel_bytes() * ((h - 1) * self.width + (w - 1)))
            <= usize::MAX
    }

    /// Whether nothing here rules out decoding the image in memory.
    pub open spec fn fits(self) -> bool {
        &&& self.is_addressable()
        &&& self.palette_fits()
        &&& self.frames_fit()
        &&& self.positions_fit()
    }

    /// Whether nothing here rules out decoding the image in memory.
    pub fn can_be_decoded(&self) -> (r: bool)
        ensures
            r == self.fits(),
    {
        let bytes: i128 = if self.color == 0 && !self.transparent {
            1
        } else if self.color == 0 || self.color == 4 {
            2
        } else if self.color == 6 || self.transparent {
            4
        } else {
            3
        };
        let (w, h): (u32, u32) = match self.frame {
            Some(size) => size,
            None => (self.width, self.height),
        };
        let width: i128 = self.width as i128;
        let height: i128 = self.height as i128;
        let above: i128 = h as i128 - 1;
        let before: i128 = w as i128 - 1;
        proof {
            assert(0 <= width * height <= 0xffff_ffff * 0xffff_ffff) by (nonlinear_arith)
                requires
                    0 <= width <= 0xffff_ffff,
                    0 <= height <= 0xffff_ffff,
            ;
            assert(-0xffff_ffff <= above * width <= 0xffff_ffff * 0xffff_ffff) by (nonlinear_arith)
                requires
                    0 <= width <= 0xffff_ffff,
                    -1 <= above <= 0xffff_ffff,
            ;
        }
        let pixels: i128 = width * height;
        let last: i128 = above * width + before;
        proof {
            assert(0 <= bytes * pixels <= 4 * 0x1_0000_0000_0000_0000) by (nonlinear_arith)
                requires
                    1 <= bytes <= 4,
                    0 <= pixels <= 0x1_0000_0000_0000_0000,
            ;
            assert(-8 * 0x1_0000_0000 <= bytes * last <= 4 * 0x1_0000_0000_0000_0000)
                by (nonlinear_arith)
                requires
                    1 <= bytes <= 4,
                    -2 * 0x1_0000_0000 <= last <= 0x1_0000_0000_0000_0000,
            ;
        }
        let addressable: bool = bytes * pixels <= isize::MAX as i128;
        let palette: bool = self.color != INDEXED || (self.palette % 3 == 0 && self.palette <= 768);
        let frames: bool = self.frame.is_some() || self.frames as i128 + 1 <= usize::MAX as i128;
        let positions: bool = !self.interlaced || 8 * (bytes * last) <= usize::MAX as i128;
        addressable && palette && frames && positions
    }
}

/// The number that the four bytes from `at` on spell, the highest first.
fn read_big_endian(file: &[u8], at: usize) -> (n: u32)
    requires
        at + 4 <= file@.len(),
    ensures
        n == big_endian(file@, at as int),
{
    let a: u32 = file[at] as u32;
    let b: u32 = file[at + 1] as u32;
    let c: u32 = file[at + 2] as u32;
    let d: u32 = file[at + 3] as u32;
    a * 0x100_0000 + b * 0x1_0000 + c * 0x100 + d
}

/// What is known after the chunk at `at`.
fn add_chunk(seen: Preamble, file: &[u8], at: usize) -> (p: Preamble)
    requires
        at + 12 + big_endian(file@, at as int) <= file@.len(),
    ensures
        p == seen.with_chunk(file@, at as int),
{
    proof {
        assert(file@.len() == file.len());
    }
    let len: u32 = read_big_endian(file, at);
    let kind: u32 = read_big_endian(file, at + 4);
    if kind == IHDR && len >= 13 {
        Preamble {
            width: read_big_endian(file, at + 8),
            height: read_big_endian(file, at + 12),
            color: file[at + 17],
            interlaced: file[at + 20] != 0,
            ..seen
        }
    } else if kind == PLTE && len > 0 {
        Preamble { palette: len, ..seen }
    } else if kind == TRNS && len > 0 {
        Preamble { transparent: true, ..seen }
    } else if kind == ACTL && len >= 8 {
        Preamble { frames: read_big_endian(file, at + 8), ..seen }
    } else if kind == FCTL && len >= 26 {
        Preamble {
            frame: Some((read_big_endian(file, at + 12), read_big_endian(file, at + 16))),
            ..seen
        }
    } else {
        seen
    }
}

/// What the file says before its image data; `None` where it has no image
/// data.
pub fn read_preamble(file: &[u8]) -> (p: Option<Preamble>)
    ensures
        p == file_preamble(file@),
{
    let mut seen: Preamble = Preamble {
        width: 0,
        height: 0,
        color: 0,
        interlaced: false,
        palette: 0,
        transparent: false,
        frames: 0,
        frame: None,
    };
    if file.len() < 8 {
        return None;
    }
    let mut at: usize = 8;
    while file.len() - at >= 8
        invariant
            at <= file@.len(),
            file@.len() == file.len(),
            file_preamble(file@) == preamble(file@, at as int, seen),
        decreases file@.len() - at,
    {
        let kind: u32 = read_big_endian(file, at + 4);
        if kind == IDAT || kind == FDAT {
            return Some(seen);
        }
        let len: u32 = read_big_endian(file, at);
        if file.len() - at < 12 || ((file.len() - at - 12) as u64) < len as u64 {
            return None;
        }
        seen = add_chunk(seen, file, at);
        at = at + 12 + len as usize;
    }
    None
}

/// Four bytes spell a number to the base of 256, the highest digit first, and
/// no other four spell the same.
pub proof fn four_bytes_spell_a_number(a: Seq<u8>, i: int, b: Seq<u8>, j: int)
    ensures
        big_endian(a, i) == ((a[i] * 256 + a[i + 1]) * 256 + a[i + 2]) * 256 + a[i + 3],
        0 <= big_endian(a, i) <= u32::MAX,
        big_endian(a, i) == big_endian(b, j) <==> a[i] == b[j] && a[i + 1] == b[j + 1] && a[i + 2]
            == b[j + 2] && a[i + 3] == b[j + 3],
{
}

/// The walk starts after the signature of eight bytes, with nothing known.
pub proof fn walk_starts_after_the_signature(file: Seq<u8>, seen: Preamble)
    requires
        seen.width == 0,
        seen.height == 0,
        seen.color == 0,
        !seen.interlaced,
        seen.palette == 0,
        !seen.transparent,
        seen.frames == 0,
        seen.frame is None,
    ensures
        file_preamble(file) == preamble(file, 8, seen),
{
}

/// The walk goes on from chunk to chunk, each twelve bytes longer than its
/// data. It ends well where a chunk is of the type `IDAT` or `fdAT`, of which
/// only the first eight bytes need be there, and ends with nothing where any
/// other chunk is cut off.
pub proof fn walk_goes_from_chunk_to_chunk(file: Seq<u8>, at: int, seen: Preamble)
    requires
        0 <= at <= file.len(),
    ensures
        ({
            let kind = seq![file[at + 4], file[at + 5], file[at + 6], file[at + 7]];
            let data = kind == seq![73u8, 68, 65, 84] || kind == seq![102u8, 100, 65, 84];
            let next = at + 12 + big_endian(file, at);
            &&& file.len() - at < 8 ==> preamble(file, at, seen) is None
            &&& file.len() - at >= 8 && data ==> preamble(file, at, seen) == Some(seen)
            &&& file.len() - at >= 8 && !data && next > file.len() ==> preamble(
                file,
                at,
                seen,
            ) is None
            &&& file.len() - at >= 8 && !data && next <= file.len() ==> preamble(file, at, seen)
                == preamble(file, next, seen.with_chunk(file, at))
        }),
{
    let kind: Seq<u8> = seq![file[at + 4], file[at + 5], file[at + 6], file[at + 7]];
    let idat: Seq<u8> = seq![73u8, 68, 65, 84];
    let fdat: Seq<u8> = seq![102u8, 100, 65, 84];
    four_bytes_spell_a_number(file, at + 4, idat, 0);
    four_bytes_spell_a_number(file, at + 4, fdat, 0);
    assert(big_endian(idat, 0) == IDAT && big_endian(fdat, 0) == FDAT);
    assert(kind == idat <==> big_endian(file, at + 4) == IDAT) by {
        assert(kind[0] == file[at + 4] && kind[1] == file[at + 5] && kind[2] == file[at + 6]
            && kind[3] == file[at + 7]);
        if big_endian(file, at + 4) == IDAT {
            assert(kind =~= idat);
        }
    }
    assert(kind == fdat <==> big_endian(file, at + 4) == FDAT) by {
        assert(kind[0] == file[at + 4] && kind[1] == file[at + 5] && kind[2] == file[at + 6]
            && kind[3] == file[at + 7]);
        if big_endian(file, at + 4) == FDAT {
            assert(kind =~= fdat);
        }
    }
}

/// A chunk says only what its type is for, and leaves all else as it was: the
/// header the size, the color and whether rows are interlaced; a palette its
/// length; transparency that it is there; an animation the number of frames;
/// and a frame its size.
pub proof fn chunk_says_what_its_type_is_for(file: Seq<u8>, at: int, seen: Preamble)
    ensures
        ({
            let kind = seq![file[at + 4], file[at + 5], file[at + 6], file[at + 7]];
            let len = big_endian(file, at);
            let now = seen.with_chunk(file, at);
            let header = kind == seq![73u8, 72, 68, 82] && len >= 13;
            let palette = kind == seq![80u8, 76, 84, 69] && len > 0;
            let transparency = kind == seq![116u8, 82, 78, 83] && len > 0;
            let animation = kind == seq![97u8, 99, 84, 76] && len >= 8;
            let frame = kind == seq![102u8, 99, 84, 76] && len >= 26;
            &&& now.width == if header {
                big_endian(file, at + 8)
            } else {
                seen.width as int
            }
            &&& now.height == if header {
                big_endian(file, at + 12)
            } else {
                seen.height as int
            }
            &&& now.color == if header {
                file[at + 8 + 9]
            } else {
                seen.color
            }
            &&& now.interlaced == if header {
                file[at + 8 + 12] != 0
            } else {
                seen.interlaced
            }
            &&& now.palette == if palette {
                len
            } else {
                seen.palette as int
            }
            &&& now.transparent == (transparency || seen.transparent)
            &&& now.frames == if animation {
                big_endian(file, at + 8)
            } else {
                seen.frames as int
            }
            &&& frame ==> {
                &&& now.frame matches Some((w, h))
                &&& w == big_endian(file, at + 8 + 4)
                &&& h == big_endian(file, at + 8 + 8)
            }
            &&& !frame ==> now.frame == seen.frame
        }),
{
    lemma_kind(file, at, seq![73u8, 72, 68, 82], IHDR);
    lemma_kind(file, at, seq![80u8, 76, 84, 69], PLTE);
    lemma_kind(file, at, seq![116u8, 82, 78, 83], TRNS);
    lemma_kind(file, at, seq![97u8, 99, 84, 76], ACTL);
    lemma_kind(file, at, seq![102u8, 99, 84, 76], FCTL);
}

/// A type by its letters and by its number.
proof fn lemma_kind(file: Seq<u8>, at: int, letters: Seq<u8>, kind: u32)
    requires
        letters.len() == 4,
        big_endian(letters, 0) == kind,
    ensures
        seq![file[at + 4], file[at + 5], file[at + 6], file[at + 7]] == letters <==> big_endian(
            file,
            at + 4,
        ) == kind,
{
    let found: Seq<u8> = seq![file[at + 4], file[at + 5], file[at + 6], file[at + 7]];
    four_bytes_spell_a_number(file, at + 4, letters, 0);
    assert(found[0] == file[at + 4] && found[1] == file[at + 5] && found[2] == file[at + 6]
        && found[3] == file[at + 7]);
    if big_endian(file, at + 4) == kind {
        assert(found =~= letters);
    }
}

/// Decoding is ruled out by four things and no others: pixels that take more
/// bytes than memory can address, a palette of an indexed image that ends
/// within an entry or has more than 256 of them, more frames than can be
/// counted, and an interlaced first frame whose bits cannot be counted. A file
/// without image data is left to the decoder.
pub proof fn four_things_rule_out_decoding(file: Seq<u8>, p: Preamble)
    ensures
        file_preamble(file) is None ==> is_decodable(file),
        file_preamble(file) == Some(p) ==> is_decodable(file) == p.fits(),
        ({
            let samples = (if p.color == 0 || p.color == 4 {
                1int
            } else {
                3int
            }) + (if p.color == 4 || p.color == 6 || p.transparent {
                1int
            } else {
                0int
            });
            let (w, h) = if p.frame is Some {
                p.frame->0
            } else {
                (p.width, p.height)
            };
            p.color == 0 || p.color == 2 || p.color == 3 || (!p.transparent && (p.color == 4
                || p.color == 6)) ==> (p.fits() <==> {
                &&& samples * (p.width * p.height) <= isize::MAX
                &&& p.color == 3 ==> exists|entries: int|
                    0 <= entries <= 256 && p.palette == #[trigger] (3 * entries)
                &&& p.frames == usize::MAX ==> p.frame is Some
                &&& p.interlaced ==> samples * ((h - 1) * p.width + (w - 1)) * 8 <= usize::MAX
            })
        }),
{
    let entries: int = (p.palette / 3) as int;
    if p.palette % 3 == 0 {
        assert(p.palette == 3 * entries);
    }
}

} // verus!
