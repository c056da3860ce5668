//! Frame buffer of packed pixels, split into fixed-size tiles for rendering.

use vstd::prelude::*;

verus! {

/// Side of the square tiles that `FrameBuffer::new` lays over the image.
pub const FRAME_TILE_SIDE: u32 = 50;

/// `len / tile_len` rounded up.
pub open spec fn ceil_div(len: int, tile_len: int) -> int {
    len / tile_len + if len % tile_len == 0 { 0int } else { 1int }
}

/// Rounding up a quotient of a length that fits in `u32` stays within `u32`,
/// so `tiles_along` is then the exact rounded-up quotient.
pub proof fn lemma_ceil_div_capped_is_exact(len: int, tile_len: int)
    requires
        0 <= len <= u32::MAX,
        0 < tile_len,
    ensures
        0 <= ceil_div(len, tile_len) <= len,
        tiles_along(len, tile_len) == ceil_div(len, tile_len),
{
    vstd::arithmetic::div_mod::lemma_fundamental_div_mod(len, tile_len);
    vstd::arithmetic::div_mod::lemma_div_pos_is_pos(len, tile_len);
    let q = len / tile_len;
    let r = len % tile_len;
    assert(tile_len * q >= q) by (nonlinear_arith)
        requires tile_len >= 1, q >= 0;
    if r != 0 {
        assert(tile_len >= 2);
        assert(tile_len * q + r >= q + 1) by (nonlinear_arith)
            requires tile_len >= 2, q >= 0, r >= 1;
    }
}

/// How many tiles of length `tile_len` the renderer lays along `len` pixels:
/// the quotient rounded up and capped at `u32::MAX`; a zero tile length gives
/// no tile for an empty side and `u32::MAX` tiles otherwise.
pub open spec fn tiles_along(len: int, tile_len: int) -> int {
    if tile_len == 0 {
        if len == 0 { 0 } else { u32::MAX as int }
    } else if ceil_div(len, tile_len) > u32::MAX {
        u32::MAX as int
    } else {
        ceil_div(len, tile_len)
    }
}

/// Computes `tiles_along(len, tile_len)`.
pub fn count_tiles_along(len: usize, tile_len: u32) -> (c: u32)
    ensures
        c == tiles_along(len as int, tile_len as int),
{
    if tile_len == 0 {
        if len == 0 { 0 } else { u32::MAX }
    } else {
        let t = tile_len as usize;
        let q = len / t;
        let c: usize = if len % t == 0 {
            q
        } else {
            assert(q < usize::MAX) by (nonlinear_arith)
                requires
                    q == len / t,
                    t >= 2,
                    len <= usize::MAX,
            ;
            q + 1
        };
        if c > u32::MAX as usize { u32::MAX } else { c as u32 }
    }
}

/// Abstract state of a frame buffer.
pub struct FrameBufferView {
    pub width: int,
    pub height: int,
    pub tile_width: int,
    pub tile_height: int,
    pub tiles_count_vertical: int,
    pub tiles_count_horizontal: int,
    pub tiles_count_total: int,
    pub pixels: Seq<u32>,
}

/// Frame buffer holding pixels, each a packed `0x00RRGGBB` word, row by row.
pub struct FrameBuffer {
    width: usize,
    height: usize,
    tile_width: u32,
    tile_height: u32,
    tiles_count_vertical: u32,
    tiles_count_horizontal: u32,
    pub tiles_count_total: u32,
    pixels: Vec<u32>,
}

/// A rectangle of the image, `width` by `height` pixels from corner `(x, y)`.
pub struct Tile {
    pub index: u32,
    pub x: u32,
    pub y: u32,
    pub width: u32,
    pub height: u32,
}

impl View for FrameBuffer {
    type V = FrameBufferView;

    closed spec fn view(&self) -> FrameBufferView {
        FrameBufferView {
            width: self.width as int,
            height: self.height as int,
            tile_width: self.tile_width as int,
            tile_height: self.tile_height as int,
            tiles_count_vertical: self.tiles_count_vertical as int,
            tiles_count_horizontal: self.tiles_count_horizontal as int,
            tiles_count_total: self.tiles_count_total as int,
            pixels: self.pixels@,
        }
    }
}

impl FrameBufferView {
    /// The frame fits in `u32` coordinates, the tile sides are positive, and
    /// the tile counts are the frame's sides divided by the tile's, rounded up.
    pub open spec fn tiling_consistent(self) -> bool {
        &&& 0 <= self.width <= u32::MAX
        &&& 0 <= self.height <= u32::MAX
        &&& 0 < self.tile_width <= u32::MAX
        &&& 0 < self.tile_height <= u32::MAX
        &&& self.tiles_count_horizontal == ceil_div(self.width, self.tile_width)
        &&& self.tiles_count_vertical == ceil_div(self.height, self.tile_height)
        &&& self.tiles_count_total == self.tiles_count_horizontal * self.tiles_count_vertical
        &&& self.tiles_count_total <= u32::MAX
    }

    /// Column of tile `t` as `get_tiles` numbers it.
    pub open spec fn tile_column(self, t: int) -> int {
        t % self.tiles_count_horizontal
    }

    /// Row of tile `t` as `get_tiles` numbers it: tiles are numbered row by
    /// row, so the index divided by the number of tiles in a row.
    pub open spec fn tile_row(self, t: int) -> int {
        t / self.tiles_count_horizontal
    }

    /// `get_tiles` builds tile `t` without an arithmetic fault.
    pub open spec fn tile_defined(self, t: int) -> bool {
        &&& self.tiles_count_horizontal > 0
        &&& self.tile_column(t) * self.tile_width <= (self.width as u32) as int
        &&& self.tile_row(t) * self.tile_height <= (self.height as u32) as int
    }

    /// `tile` is the tile that `get_tiles` builds for index `t`.
    pub open spec fn is_tile(self, t: int, tile: Tile) -> bool {
        let x = self.tile_column(t) * self.tile_width;
        let y = self.tile_row(t) * self.tile_height;
        &&& tile.index == t
        &&& tile.x == x
        &&& tile.y == y
        &&& tile.width == vstd::math::min(self.tile_width, (self.width as u32) as int - x)
        &&& tile.height == vstd::math::min(self.tile_height, (self.height as u32) as int - y)
    }
}

impl FrameBuffer {
    /// A black frame of `width` by `height` pixels, tiled in squares of
    /// `FRAME_TILE_SIDE` pixels.
    pub fn new(width: usize, height: usize) -> (fb: FrameBuffer)
        requires
            width * height <= usize::MAX,
            tiles_along(height as int, FRAME_TILE_SIDE as int) * tiles_along(width as int, FRAME_TILE_SIDE as int)
                <= u32::MAX,
        ensures
            fb@.width == width,
            fb@.height == height,
            fb@.tile_width == FRAME_TILE_SIDE,
            fb@.tile_height == FRAME_TILE_SIDE,
            fb@.tiles_count_vertical == tiles_along(height as int, FRAME_TILE_SIDE as int),
            fb@.tiles_count_horizontal == tiles_along(width as int, FRAME_TILE_SIDE as int),
            fb@.tiles_count_total == fb@.tiles_count_vertical * fb@.tiles_count_horizontal,
            fb@.pixels == Seq::new((width * height) as nat, |k: int| 0u32),
            width <= u32::MAX && height <= u32::MAX ==> fb@.tiling_consistent(),
    {
        let tile_width = FRAME_TILE_SIDE;
        let tile_height = FRAME_TILE_SIDE;
        let tiles_count_vertical = count_tiles_along(height, tile_height);
        let tiles_count_horizontal = count_tiles_along(width, tile_width);
        let tiles_count_total = tiles_count_vertical * tiles_count_horizontal;
        proof {
            if width <= u32::MAX && height <= u32::MAX {
                lemma_ceil_div_capped_is_exact(width as int, tile_width as int);
                lemma_ceil_div_capped_is_exact(height as int, tile_height as int);
            }
            assert(tiles_count_vertical * tiles_count_horizontal == tiles_count_horizontal * tiles_count_vertical)
                by (nonlinear_arith);
        }
        let n = width * height;
        let mut pixels: Vec<u32> = Vec::new();
        let mut k: usize = 0;
        while k < n
            invariant
                k <= n,
                pixels@ == Seq::new(k as nat, |a: int| 0u32),
            decreases n - k,
        {
            pixels.push(0u32);
            k = k + 1;
            assert(pixels@ =~= Seq::new(k as nat, |a: int| 0u32));
        }
        FrameBuffer {
            width,
            height,
            tile_width,
            tile_height,
            tiles_count_horizontal,
            tiles_count_vertical,
            tiles_count_total,
            pixels,
        }
    }

    /// Stores the packed colour of pixel `(x, y)`.
    pub fn write_pixel(&mut self, x: u32, y: u32, color_u32: u32)
        requires
            y * old(self)@.width + x < old(self)@.pixels.len(),
        ensures
            final(self)@ == (FrameBufferView {
                pixels: old(self)@.pixels.update(y * old(self)@.width + x, color_u32),
                ..old(self)@
            }),
    {
        // the buffer's length bounds the index, so its computation cannot overflow
        let len = self.pixels.len();
        assert(y * self.width <= y * self.width + x < len);
        let idx = y as usize * self.width + x as usize;
        self.pixels.set(idx, color_u32);
    }

    /// Every tile of the frame, numbered row by row; the last tile of a row or
    /// column is cut at the frame's edge.
    pub fn get_tiles(&self) -> (tiles: Vec<Tile>)
        requires
            forall|t: int| 0 <= t < self@.tiles_count_total ==> #[trigger] self@.tile_defined(t),
        ensures
            tiles@.len() == self@.tiles_count_total,
            forall|t: int| 0 <= t < tiles@.len() ==> self@.is_tile(t, #[trigger] tiles@[t]),
    {
        let mut tiles: Vec<Tile> = Vec::new();
        let mut tile_index: u32 = 0;
        while tile_index < self.tiles_count_total
            invariant
                tile_index <= self.tiles_count_total,
                tiles@.len() == tile_index,
                forall|t: int| 0 <= t < self@.tiles_count_total ==> #[trigger] self@.tile_defined(t),
                forall|t: int| 0 <= t < tiles@.len() ==> self@.is_tile(t, #[trigger] tiles@[t]),
            decreases self.tiles_count_total - tile_index,
        {
            assert(self@.tile_defined(tile_index as int));
            let i = tile_index % self.tiles_count_horizontal;
            let j = tile_index / self.tiles_count_horizontal;
            let x = i * self.tile_width;
            let y = j * self.tile_height;
            let fw = self.width as u32;
            let fh = self.height as u32;
            let width = if self.tile_width < fw - x { self.tile_width } else { fw - x };
            let height = if self.tile_height < fh - y { self.tile_height } else { fh - y };
            tiles.push(Tile { index: tile_index, x, y, width, height });
            tile_index = tile_index + 1;
        }
        tiles
    }

    /// Number of tiles laid over the frame.
    pub fn tiles_count_total(&self) -> (n: u32)
        ensures
            n == self@.tiles_count_total,
    {
        self.tiles_count_total
    }

    /// Width of the frame in pixels.
    pub(crate) fn width(&self) -> (w: usize)
        ensures
            w == self@.width,
    {
        self.width
    }

    /// Height of the frame in pixels.
    pub(crate) fn height(&self) -> (h: usize)
        ensures
            h == self@.height,
    {
        self.height
    }

    /// The packed pixels, row by row.
    pub fn get_pixels(&self) -> (pixels: &[u32])
        ensures
            pixels@ == self@.pixels,
    {
        self.pixels.as_slice()
    }
}


/// A pixel written with `write_pixel` reads back from `get_pixels` with the
/// written colour, and every other pixel keeps its colour.
pub proof fn lemma_read_after_write(v: FrameBufferView, x: int, y: int, color: u32, k: int)
    requires
        0 <= y * v.width + x < v.pixels.len(),
        0 <= k < v.pixels.len(),
    ensures
        ({
            let w = FrameBufferView { pixels: v.pixels.update(y * v.width + x, color), ..v };
            &&& w.pixels.len() == v.pixels.len()
            &&& w.pixels[y * v.width + x] == color
            &&& k != y * v.width + x ==> w.pixels[k] == v.pixels[k]
        }),
{
}

} // verus!
