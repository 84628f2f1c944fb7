//! A bitmap pixel editor over 24-bit-per-pixel files: the header fields the
//! pixel operations need are parsed from the file's fixed little-endian
//! layout, and pixels are read and written in place.

use vstd::prelude::*;

verus! {

/// The little-endian 16-bit value at offset `i` of `s`.
pub open spec fn le16(s: Seq<u8>, i: int) -> nat {
    (s[i] + 256 * s[i + 1]) as nat
}

/// The little-endian 32-bit value at offset `i` of `s`.
pub open spec fn le32(s: Seq<u8>, i: int) -> nat {
    (s[i] + 256 * s[i + 1] + 65536 * s[i + 2] + 16777216 * s[i + 3]) as nat
}

/// The header fields that the pixel operations read, at their fixed byte
/// offsets in the file: pixel-array offset at 10, width at 18, height at
/// 22, bits per pixel at 28.
#[derive(Clone, Copy, PartialEq, Eq, Structural, Debug)]
pub struct BMPInfo {
    /// Byte offset of the pixel array within the file.
    pub offset: u32,
    /// Width in pixels, as the file records it (possibly negative).
    pub width: i32,
    /// Height in pixels, as the file records it (possibly negative).
    pub height: i32,
    /// Bits per pixel.
    pub bpp: u16,
}

/// Why a byte buffer was rejected as a bitmap.
#[derive(Clone, Copy, PartialEq, Eq, Structural, Debug)]
pub enum BmpError {
    /// Shorter than the fixed file and information headers.
    Truncated,
    /// Not 24 bits per pixel.
    UnsupportedBpp,
}

/// The number of bytes the two headers span; shorter inputs are rejected.
pub open spec fn header_len() -> nat {
    138
}

/// The header fields read from the file's fixed offsets.
pub open spec fn parsed_info(s: Seq<u8>) -> BMPInfo {
    BMPInfo {
        offset: le32(s, 10) as u32,
        width: (le32(s, 18) as u32) as i32,
        height: (le32(s, 22) as u32) as i32,
        bpp: le16(s, 28) as u16,
    }
}

/// A bitmap: its header fields and the whole file's bytes.
#[derive(Clone, PartialEq, Eq, Debug)]
pub struct BMP {
    pub info: BMPInfo,
    pub data: Vec<u8>,
}

fn read_le16(data: &[u8], i: usize) -> (r: u16)
    requires
        i + 2 <= data@.len(),
    ensures
        r as nat == le16(data@, i as int) % 0x10000,
        le16(data@, i as int) < 0x10000,
        r as nat == le16(data@, i as int),
{
    (data[i] as u16) + 256 * (data[i + 1] as u16)
}

fn read_le32(data: &[u8], i: usize) -> (r: u32)
    requires
        i + 4 <= data@.len(),
    ensures
        le32(data@, i as int) < 0x100000000,
        r as nat == le32(data@, i as int),
{
    (data[i] as u32) + 256 * (data[i + 1] as u32) + 65536 * (data[i + 2] as u32) + 16777216 * (
    data[i + 3] as u32)
}

impl BMP {
    /// Parse the header of `data` and take a copy of the whole file.
    /// Rejects inputs shorter than the headers and any pixel format other
    /// than 24 bits per pixel.
    pub fn new(data: &[u8]) -> (r: Result<BMP, BmpError>)
        ensures
            data@.len() < header_len() ==> r == Err::<BMP, BmpError>(BmpError::Truncated),
            data@.len() >= header_len() && parsed_info(data@).bpp != 24 ==> r == Err::<
                BMP,
                BmpError,
            >(BmpError::UnsupportedBpp),
            data@.len() >= header_len() && parsed_info(data@).bpp == 24 ==> (r matches Ok(b)
                && b.info == parsed_info(data@) && b.data@ == data@),
    {
        if data.len() < 138 {
            return Err(BmpError::Truncated);
        }
        let bpp = read_le16(data, 28);
        if bpp != 24 {
            return Err(BmpError::UnsupportedBpp);
        }
        let info = BMPInfo {
            offset: read_le32(data, 10),
            width: read_le32(data, 18) as i32,
            height: read_le32(data, 22) as i32,
            bpp,
        };
        Ok(BMP { info, data: vstd::slice::slice_to_vec(data) })
    }

    /// Width as the pixel operations use it.
    pub open spec fn w(&self) -> nat {
        self.info.width as usize as nat
    }

    /// Height as the pixel operations use it.
    pub open spec fn h(&self) -> nat {
        self.info.height as usize as nat
    }

    /// Bytes per pixel.
    pub open spec fn bpx(&self) -> nat {
        (self.info.bpp as usize / 8) as nat
    }

    /// Whether `(x, y)` names a pixel of this image.
    pub open spec fn in_bounds(&self, x: nat, y: nat) -> bool {
        x < self.w() && y < self.h()
    }

    /// The byte offset of pixel `(x, y)`: rows are stored bottom-up.
    pub open spec fn index_of(&self, x: nat, y: nat) -> int {
        self.info.offset + self.bpx() * self.w() * (self.h() - y - 1) + self.bpx() * x
    }

    /// Whether the offset arithmetic for `(x, y)` stays within `usize`.
    pub open spec fn index_fits(&self, x: nat, y: nat) -> bool {
        self.bpx() * self.w() <= usize::MAX && self.index_of(x, y) <= usize::MAX
    }

    /// The `(width, height)` of the image as the file records them,
    /// reinterpreted as unsigned sizes.
    pub fn size(&self) -> (r: (usize, usize))
        ensures
            r.0 as nat == self.w(),
            r.1 as nat == self.h(),
    {
        (self.info.width as usize, self.info.height as usize)
    }

    /// The byte offset of pixel `(x, y)`, or `None` when the pixel is out
    /// of bounds or the offset cannot be represented.
    pub fn pixel_index(&self, pos: (usize, usize)) -> (r: Option<usize>)
        ensures
            match r {
                Some(ofs) => self.in_bounds(pos.0 as nat, pos.1 as nat) && self.index_fits(
                    pos.0 as nat,
                    pos.1 as nat,
                ) && ofs == self.index_of(pos.0 as nat, pos.1 as nat),
                None => !self.in_bounds(pos.0 as nat, pos.1 as nat) || !self.index_fits(
                    pos.0 as nat,
                    pos.1 as nat,
                ),
            },
    {
        let (x, y) = pos;
        let (width, height) = self.size();
        if x >= width || y >= height {
            return None;
        }
        let bytes_per_pixel = (self.info.bpp as usize) / 8;
        let row = height - y - 1;
        let bytes_per_row = match bytes_per_pixel.checked_mul(width) {
            Some(v) => v,
            None => {
                return None;
            },
        };
        let row_start = match bytes_per_row.checked_mul(row) {
            Some(v) => v,
            None => {
                return None;
            },
        };
        let with_offset = match row_start.checked_add(self.info.offset as usize) {
            Some(v) => v,
            None => {
                return None;
            },
        };
        proof {
            assert(bytes_per_pixel * x <= bytes_per_pixel * width) by (nonlinear_arith)
                requires
                    x <= width,
                    bytes_per_pixel >= 0,
            ;
        }
        let within_row = bytes_per_pixel * x;
        match with_offset.checked_add(within_row) {
            Some(v) => Some(v),
            None => None,
        }
    }

    /// The pixel at `(x, y)` as `[red, green, blue]` (stored in the file
    /// in the reverse order), or `None` when it is out of bounds, its
    /// offset cannot be represented, or the file is shorter than the
    /// pixel's bytes.
    pub fn get(&self, pos: (usize, usize)) -> (r: Option<[u8; 3]>)
        ensures
            match r {
                Some(p) => {
                    let ofs = self.index_of(pos.0 as nat, pos.1 as nat);
                    &&& self.in_bounds(pos.0 as nat, pos.1 as nat)
                    &&& self.index_fits(pos.0 as nat, pos.1 as nat)
                    &&& ofs + 2 < self.data@.len()
                    &&& p@ == seq![self.data@[ofs + 2], self.data@[ofs + 1], self.data@[ofs]]
                },
                None => !self.in_bounds(pos.0 as nat, pos.1 as nat) || !self.index_fits(
                    pos.0 as nat,
                    pos.1 as nat,
                ) || self.index_of(pos.0 as nat, pos.1 as nat) + 2 >= self.data@.len(),
            },
    {
        let n = self.data.len();
        let ofs = match self.pixel_index(pos) {
            Some(v) => v,
            None => {
                return None;
            },
        };
        let hi = match ofs.checked_add(2) {
            Some(v) => v,
            None => {
                return None;
            },
        };
        if hi >= n {
            return None;
        }
        let p = [self.data[ofs + 2], self.data[ofs + 1], self.data[ofs]];
        proof {
            assert(p@ =~= seq![
                self.data@[ofs + 2],
                self.data@[ofs + 1],
                self.data@[ofs as int],
            ]);
        }
        Some(p)
    }

    /// Write pixel `(x, y)` as `[red, green, blue]` (stored reversed).
    /// `None`, with the image unchanged, exactly when `get` would fail.
    pub fn set(&mut self, pos: (usize, usize), value: [u8; 3]) -> (r: Option<()>)
        ensures
            final(self).info == old(self).info,
            final(self).data@.len() == old(self).data@.len(),
            match r {
                Some(_) => {
                    let ofs = old(self).index_of(pos.0 as nat, pos.1 as nat);
                    &&& old(self).in_bounds(pos.0 as nat, pos.1 as nat)
                    &&& old(self).index_fits(pos.0 as nat, pos.1 as nat)
                    &&& ofs + 2 < old(self).data@.len()
                    &&& final(self).data@ == old(self).data@.update(ofs + 2, value@[0]).update(
                        ofs + 1,
                        value@[1],
                    ).update(ofs, value@[2])
                },
                None => {
                    &&& final(self).data@ == old(self).data@
                    &&& (!old(self).in_bounds(pos.0 as nat, pos.1 as nat) || !old(
                        self,
                    ).index_fits(pos.0 as nat, pos.1 as nat) || old(self).index_of(
                        pos.0 as nat,
                        pos.1 as nat,
                    ) + 2 >= old(self).data@.len())
                },
            },
    {
        let n = self.data.len();
        let ofs = match self.pixel_index(pos) {
            Some(v) => v,
            None => {
                return None;
            },
        };
        let hi = match ofs.checked_add(2) {
            Some(v) => v,
            None => {
                return None;
            },
        };
        if hi >= n {
            return None;
        }
        self.data[ofs + 2] = value[0];
        self.data[ofs + 1] = value[1];
        self.data[ofs] = value[2];
        Some(())
    }
}

/// The bytes of pixel `(x, y)` as `[red, green, blue]`.
pub open spec fn pixel_spec(b: BMP, x: nat, y: nat) -> Seq<u8> {
    let ofs = b.index_of(x, y);
    seq![b.data@[ofs + 2], b.data@[ofs + 1], b.data@[ofs]]
}

impl BMP {
    /// Whether the file really holds all the pixels its header
    /// announces: three bytes per pixel, rows contiguous from the
    /// offset, all within the file.
    pub open spec fn well_sized(&self) -> bool {
        &&& self.bpx() == 3
        &&& self.info.offset + self.bpx() * self.w() * self.h() <= usize::MAX
        &&& self.info.offset + self.bpx() * self.w() * self.h() <= self.data@.len()
    }
}

/// In a well-sized image, every pixel's offset arithmetic stays in
/// range and its three bytes lie inside the file.
proof fn lemma_index_in_range(b: BMP, x: nat, y: nat)
    requires
        b.well_sized(),
        b.in_bounds(x, y),
    ensures
        b.index_fits(x, y),
        b.info.offset <= b.index_of(x, y),
        b.index_of(x, y) + 2 < b.info.offset + b.bpx() * b.w() * b.h(),
        b.index_of(x, y) + 2 < b.data@.len(),
{
    let w = b.w();
    let h = b.h();
    assert(3 * w * (h - y - 1) + 3 * x + 3 <= 3 * w * h) by (nonlinear_arith)
        requires
            x < w,
            y < h,
    ;
    assert(3 * w <= 3 * w * h) by (nonlinear_arith)
        requires
            w >= 1,
            h >= 1,
    ;
    assert(b.bpx() * b.w() * (b.h() - y - 1) == b.bpx() * (b.w() * (b.h() - y - 1)))
        by (nonlinear_arith);
}

/// Distinct pixels occupy disjoint byte triples: their offsets differ
/// by at least three.
proof fn lemma_pixel_bytes_disjoint(b: BMP, x1: nat, y1: nat, x2: nat, y2: nat)
    requires
        b.well_sized(),
        b.in_bounds(x1, y1),
        b.in_bounds(x2, y2),
        !(x1 == x2 && y1 == y2),
    ensures
        b.index_of(x1, y1) + 3 <= b.index_of(x2, y2) || b.index_of(x2, y2) + 3 <= b.index_of(
            x1,
            y1,
        ),
{
    let w = b.w() as int;
    let h = b.h() as int;
    let l1 = w * (h - y1 - 1) + x1;
    let l2 = w * (h - y2 - 1) + x2;
    assert(l1 != l2) by (nonlinear_arith)
        requires
            0 <= x1 < w,
            0 <= y1 < h,
            0 <= x2 < w,
            0 <= y2 < h,
            !(x1 == x2 && y1 == y2),
            l1 == w * (h - y1 - 1) + x1,
            l2 == w * (h - y2 - 1) + x2,
    ;
    assert(b.index_of(x1, y1) == b.info.offset + 3 * l1 && b.index_of(x2, y2) == b.info.offset + 3
        * l2) by (nonlinear_arith)
        requires
            b.bpx() == 3,
            l1 == w * (h - y1 - 1) + x1,
            l2 == w * (h - y2 - 1) + x2,
            b.index_of(x1, y1) == b.info.offset + b.bpx() * b.w() * (b.h() - y1 - 1) + b.bpx()
                * x1,
            b.index_of(x2, y2) == b.info.offset + b.bpx() * b.w() * (b.h() - y2 - 1) + b.bpx()
                * x2,
            w == b.w(),
            h == b.h(),
    ;
}

impl BMP {
    /// The image turned a quarter turn: pixel `(x, y)` of the result is
    /// pixel `(y, width - x - 1)` of the original. Every byte outside
    /// the pixel array (headers, palette, padding) is kept as it is.
    pub fn rotated(&self) -> (r: BMP)
        requires
            self.well_sized(),
            self.w() == self.h(),
        ensures
            r.info == self.info,
            r.data@.len() == self.data@.len(),
            forall|x: nat, y: nat|
                x < self.w() && y < self.h() ==> #[trigger] pixel_spec(r, x, y) == pixel_spec(
                    *self,
                    y,
                    (self.w() - x - 1) as nat,
                ),
            forall|i: int|
                0 <= i < self.data@.len() && !(self.info.offset <= i < self.info.offset + 3
                    * self.w() * self.h()) ==> r.data@[i] == self.data@[i],
    {
        let (width, height) = self.size();
        let mut rot = BMP { info: self.info, data: vstd::slice::slice_to_vec(self.data.as_slice()) };
        let mut y: usize = 0;
        while y < height
            invariant
                rot.info == self.info,
                rot.data@.len() == self.data@.len(),
                width == self.w(),
                height == self.h(),
                width == height,
                self.well_sized(),
                y <= height,
                forall|a: nat, b: nat|
                    a < self.w() && b < self.h() && b < y ==> #[trigger] pixel_spec(rot, a, b)
                        == pixel_spec(*self, b, (self.w() - a - 1) as nat),
                forall|a: nat, b: nat|
                    a < self.w() && b < self.h() && b >= y ==> #[trigger] pixel_spec(rot, a, b)
                        == pixel_spec(*self, a, b),
                forall|i: int|
                    0 <= i < self.data@.len() && !(self.info.offset <= i < self.info.offset + 3
                        * self.w() * self.h()) ==> rot.data@[i] == self.data@[i],
            decreases height - y,
        {
            let mut x: usize = 0;
            while x < width
                invariant
                    rot.info == self.info,
                    rot.data@.len() == self.data@.len(),
                    width == self.w(),
                    height == self.h(),
                    width == height,
                    self.well_sized(),
                    y < height,
                    x <= width,
                    forall|a: nat, b: nat|
                        a < self.w() && b < self.h() && (b < y || (b == y && a < x))
                            ==> #[trigger] pixel_spec(rot, a, b) == pixel_spec(
                            *self,
                            b,
                            (self.w() - a - 1) as nat,
                        ),
                    forall|a: nat, b: nat|
                        a < self.w() && b < self.h() && (b > y || (b == y && a >= x))
                            ==> #[trigger] pixel_spec(rot, a, b) == pixel_spec(*self, a, b),
                    forall|i: int|
                        0 <= i < self.data@.len() && !(self.info.offset <= i < self.info.offset
                            + 3 * self.w() * self.h()) ==> rot.data@[i] == self.data@[i],
                decreases width - x,
            {
                let ghost rot_before = rot;
                proof {
                    lemma_index_in_range(*self, y as nat, (width - x - 1) as nat);
                    lemma_index_in_range(rot, x as nat, y as nat);
                }
                let p = match self.get((y, width - x - 1)) {
                    Some(p) => p,
                    None => {
                        vstd::pervasive::unreached()
                    },
                };
                let res = rot.set((x, y), p);
                proof {
                    lemma_index_in_range(rot_before, x as nat, y as nat);
                    assert(res is Some);
                    let idx = rot_before.index_of(x as nat, y as nat);
                    assert(rot.data@ == rot_before.data@.update(idx + 2, p[0]).update(
                        idx + 1,
                        p[1],
                    ).update(idx, p[2]));
                    assert(pixel_spec(rot, x as nat, y as nat) =~= seq![p[0], p[1], p[2]]);
                    assert(pixel_spec(rot, x as nat, y as nat) == pixel_spec(
                        *self,
                        y as nat,
                        (self.w() - x - 1) as nat,
                    ));
                    assert forall|a: nat, b: nat|
                        a < self.w() && b < self.h() && !(a == x as nat && b == y as nat) implies
                        #[trigger] pixel_spec(rot, a, b) == pixel_spec(rot_before, a, b) by {
                        lemma_pixel_bytes_disjoint(rot_before, a, b, x as nat, y as nat);
                        lemma_index_in_range(rot_before, a, b);
                    }
                    assert forall|i: int|
                        0 <= i < self.data@.len() && !(self.info.offset <= i < self.info.offset
                            + 3 * self.w() * self.h()) implies rot.data@[i] == self.data@[i] by {
                        assert(self.info.offset <= idx && idx + 2 < self.info.offset + 3
                            * self.w() * self.h());
                        assert(rot.data@[i] == rot_before.data@[i]);
                    }
                }
                x = x + 1;
            }
            y = y + 1;
        }
        rot
    }
}

} // verus!
