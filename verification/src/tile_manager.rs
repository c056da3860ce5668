//! Tiling of the image and bookkeeping of the tiles being rendered.

use vstd::prelude::*;
use std::collections::HashSet;
use vstd::std_specs::iter::IteratorSpec;
use crate::frame_buffer::{FrameBuffer, FrameBufferView, tiles_along, count_tiles_along, ceil_div, lemma_ceil_div_capped_is_exact};
use vstd::arithmetic::div_mod::lemma_fundamental_div_mod_converse;

verus! {

/// Tile in image that can be processed: `width` by `height` pixels whose
/// upper-left pixel is `(x, y)`.
pub struct Tile {
    pub index: u32,
    pub x: u32,
    pub y: u32,
    pub width: u32,
    pub height: u32,
}

impl Tile {
    /// The pixel `(px, py)` lies inside the tile.
    pub open spec fn contains_pixel(self, px: int, py: int) -> bool {
        &&& self.x <= px < self.x + self.width
        &&& self.y <= py < self.y + self.height
    }

    /// The pixel `(px, py)` lies inside the tile, on its outermost ring.
    pub open spec fn on_border(self, px: int, py: int) -> bool {
        &&& self.contains_pixel(px, py)
        &&& (px == self.x || px == self.x + self.width - 1 || py == self.y || py == self.y + self.height - 1)
    }

    /// `pixels_iter` can enumerate the tile without overflowing a coordinate.
    pub open spec fn pixels_defined(self) -> bool {
        self.width >= 1 && self.height >= 1 ==> {
            &&& self.x + self.width - 1 <= u32::MAX
            &&& self.y + self.height - 1 <= u32::MAX
        }
    }

    /// The tile's pixels row by row, each row from left to right.
    pub open spec fn pixel_seq(self) -> Seq<(u32, u32)> {
        Seq::new(
            (self.width * self.height) as nat,
            |k: int| ((self.x + k % (self.width as int)) as u32, (self.y + k / (self.width as int)) as u32),
        )
    }

    /// `borders_iter` can enumerate the outline without an arithmetic fault.
    pub open spec fn borders_defined(self) -> bool {
        &&& self.height >= 1
        &&& self.width >= 1 ==> self.x + self.width - 1 <= u32::MAX && self.y + self.height <= u32::MAX
        &&& self.height >= 3 ==> {
            &&& 1 <= self.x + self.width <= u32::MAX
            &&& self.y + self.height - 2 <= u32::MAX
        }
    }

    /// Number of pixels on each vertical side, corners excluded.
    pub open spec fn side_len(self) -> int {
        if self.height >= 2 { self.height - 2 } else { 0 }
    }

    /// Top edge, left to right.
    pub open spec fn top_edge(self) -> Seq<(u32, u32)> {
        Seq::new(self.width as nat, |d: int| ((self.x + d) as u32, self.y))
    }

    /// Right edge without its corners, top to bottom.
    pub open spec fn right_edge(self) -> Seq<(u32, u32)> {
        Seq::new(
            self.side_len() as nat,
            |d: int| ((self.x + self.width - 1) as u32, (self.y + 1 + d) as u32),
        )
    }

    /// Bottom edge, left to right.
    pub open spec fn bottom_edge(self) -> Seq<(u32, u32)> {
        Seq::new(self.width as nat, |d: int| ((self.x + d) as u32, (self.y + self.height - 1) as u32))
    }

    /// Left edge without its corners, top to bottom.
    pub open spec fn left_edge(self) -> Seq<(u32, u32)> {
        Seq::new(self.side_len() as nat, |d: int| (self.x, (self.y + 1 + d) as u32))
    }

    /// The outline in the order `borders_iter` gives it: top, right, bottom, left.
    pub open spec fn border_seq(self) -> Seq<(u32, u32)> {
        self.top_edge() + self.right_edge() + self.bottom_edge() + self.left_edge()
    }

    pub fn new(index: u32, x: u32, y: u32, width: u32, height: u32) -> (tile: Tile)
        ensures
            tile == (Tile { index, x, y, width, height }),
    {
        Tile { index, x, y, width, height }
    }

    /// Every pixel of the tile, row by row.
    pub fn pixels_iter(&self) -> (pixels: Vec<(u32, u32)>)
        requires
            self.pixels_defined(),
        ensures
            pixels@ == self.pixel_seq(),
    {
        let mut pixels: Vec<(u32, u32)> = Vec::new();
        let w = self.width;
        let h = self.height;
        let mut dy: u32 = 0;
        while dy < h
            invariant
                self.pixels_defined(),
                w == self.width,
                h == self.height,
                dy <= h,
                w >= 1 ==> pixels@.len() == dy * w,
                w == 0 ==> pixels@.len() == 0,
                forall|k: int| 0 <= k < pixels@.len() ==> #[trigger] pixels@[k] == self.pixel_seq()[k],
            decreases h - dy,
        {
            let mut dx: u32 = 0;
            while dx < w
                invariant
                    self.pixels_defined(),
                    w == self.width,
                    h == self.height,
                    dy < h,
                    dx <= w,
                    pixels@.len() == dy * w + dx,
                    forall|k: int| 0 <= k < pixels@.len() ==> #[trigger] pixels@[k] == self.pixel_seq()[k],
                decreases w - dx,
            {
                proof {
                    let k = dy * w + dx;
                    lemma_fundamental_div_mod_converse(k, w as int, dy as int, dx as int);
                    assert(dy * w + dx < h * w) by (nonlinear_arith)
                        requires dy < h, dx < w;
                    assert(h * w == w * h) by (nonlinear_arith);
                }
                pixels.push((self.x + dx, self.y + dy));
                dx = dx + 1;
            }
            proof {
                assert(dy * w + w == (dy + 1) * w) by (nonlinear_arith);
            }
            dy = dy + 1;
        }
        proof {
            if w >= 1 {
                assert(h * w == w * h) by (nonlinear_arith);
            }
        }
        assert(pixels@ =~= self.pixel_seq());
        pixels
    }

    /// The tile's outline: top edge, right edge, bottom edge, left edge, the
    /// corners on the top and bottom edges only.
    pub fn borders_iter(&self) -> (border: Vec<(u32, u32)>)
        requires
            self.borders_defined(),
        ensures
            border@ == self.border_seq(),
    {
        let x = self.x;
        let y = self.y;
        let w = self.width;
        let h = self.height;
        let mut border: Vec<(u32, u32)> = Vec::new();
        // top and bottom edges (full width)
        let mut dx: u32 = 0;
        while dx < w
            invariant
                self.borders_defined(),
                x == self.x, y == self.y, w == self.width, h == self.height,
                dx <= w,
                border@ == self.top_edge().take(dx as int),
            decreases w - dx,
        {
            border.push((x + dx, y));
            dx = dx + 1;
            assert(border@ =~= self.top_edge().take(dx as int));
        }
        assert(self.top_edge().take(w as int) =~= self.top_edge());
        let ghost after_top = border@;
        // right edge without corners
        let mut dy: u32 = 1;
        while dy < h - 1
            invariant
                self.borders_defined(),
                x == self.x, y == self.y, w == self.width, h == self.height,
                1 <= dy,
                h >= 2 ==> dy <= h - 1,
                h < 2 ==> dy == 1,
                border@ == after_top + self.right_edge().take(dy - 1),
            decreases h - dy,
        {
            border.push((x + w - 1, y + dy));
            dy = dy + 1;
            assert(border@ =~= after_top + self.right_edge().take(dy - 1));
        }
        assert(self.right_edge().take(dy - 1) =~= self.right_edge());
        let ghost after_right = border@;
        let mut dx: u32 = 0;
        while dx < w
            invariant
                self.borders_defined(),
                x == self.x, y == self.y, w == self.width, h == self.height,
                dx <= w,
                border@ == after_right + self.bottom_edge().take(dx as int),
            decreases w - dx,
        {
            border.push((x + dx, y + h - 1));
            dx = dx + 1;
            assert(border@ =~= after_right + self.bottom_edge().take(dx as int));
        }
        assert(self.bottom_edge().take(w as int) =~= self.bottom_edge());
        let ghost after_bottom = border@;
        let mut dy: u32 = 1;
        while dy < h - 1
            invariant
                self.borders_defined(),
                x == self.x, y == self.y, w == self.width, h == self.height,
                1 <= dy,
                h >= 2 ==> dy <= h - 1,
                h < 2 ==> dy == 1,
                border@ == after_bottom + self.left_edge().take(dy - 1),
            decreases h - dy,
        {
            border.push((x, y + dy));
            dy = dy + 1;
            assert(border@ =~= after_bottom + self.left_edge().take(dy - 1));
        }
        assert(self.left_edge().take(dy - 1) =~= self.left_edge());
        border
    }
}


/// Abstract state of a tile manager.
pub struct TileManagerView {
    pub frame_width: int,
    pub frame_height: int,
    pub tile_width: int,
    pub tile_height: int,
    pub tiles_count_horizontal: int,
    pub tiles_count_total: int,
    /// Indices of the tiles being rendered right now.
    pub current: Set<u32>,
}

impl TileManagerView {
    /// The counts were computed from the frame's size with positive tile
    /// sides, and every tile number fits in a `u32`.
    pub open spec fn tiling_consistent(self) -> bool {
        &&& 0 <= self.frame_width <= u32::MAX
        &&& 0 <= self.frame_height <= u32::MAX
        &&& 0 < self.tile_width <= u32::MAX
        &&& 0 < self.tile_height <= u32::MAX
        &&& self.tiles_count_horizontal == ceil_div(self.frame_width, self.tile_width)
        &&& self.tiles_count_total == self.tiles_count_horizontal * ceil_div(self.frame_height, self.tile_height)
        &&& self.tiles_count_total <= u32::MAX
    }

    /// Number of the tile that holds the frame pixel `(px, py)`.
    pub open spec fn tile_index_of(self, px: int, py: int) -> int {
        (py / self.tile_height) * self.tiles_count_horizontal + px / self.tile_width
    }

    /// Left column of tile `t`.
    pub open spec fn tile_x(self, t: int) -> int {
        (t % self.tiles_count_horizontal) * self.tile_width
    }

    /// Top row of tile `t`.
    pub open spec fn tile_y(self, t: int) -> int {
        (t / self.tiles_count_horizontal) * self.tile_height
    }

    /// Tile `t` can be built without an arithmetic fault.
    pub open spec fn tile_defined(self, t: int) -> bool {
        &&& self.tiles_count_horizontal > 0
        &&& self.tile_x(t) <= self.frame_width
        &&& self.tile_y(t) <= self.frame_height
    }

    /// Tile number `t`: tiles are numbered row by row, and the last tile of a
    /// row or column is cut at the frame's edge.
    pub open spec fn tile(self, t: int) -> Tile {
        Tile {
            index: t as u32,
            x: self.tile_x(t) as u32,
            y: self.tile_y(t) as u32,
            width: vstd::math::min(self.tile_width, self.frame_width - self.tile_x(t)) as u32,
            height: vstd::math::min(self.tile_height, self.frame_height - self.tile_y(t)) as u32,
        }
    }

    /// Position in a row-major frame buffer of the pixel `p`.
    pub open spec fn pixel_index(self, p: (u32, u32)) -> int {
        p.1 * self.frame_width + p.0
    }

    /// Every tile in flight is one of the tiles of the frame.
    pub open spec fn current_in_range(self) -> bool {
        forall|t: u32| #[trigger] self.current.contains(t) ==> t < self.tiles_count_total
    }

    /// Drawing the outline of tile `t` writes the buffer slot `k`.
    pub open spec fn border_writes(self, t: u32, k: int) -> bool {
        exists|m: int|
            0 <= m < self.tile(t as int).border_seq().len()
                && #[trigger] self.pixel_index(self.tile(t as int).border_seq()[m]) == k
    }

    /// Drawing the outlines of all current tiles writes the buffer slot `k`.
    pub open spec fn marked(self, k: int) -> bool {
        exists|t: u32| self.current.contains(t) && #[trigger] self.border_writes(t, k)
    }

    /// The outline of every current tile can be drawn into a buffer of
    /// `len` slots without an arithmetic fault or an index out of bounds.
    pub open spec fn borders_drawable(self, len: int) -> bool {
        forall|t: u32| #[trigger] self.current.contains(t) ==> {
            &&& self.tile_defined(t as int)
            &&& self.tile(t as int).borders_defined()
            &&& forall|m: int| 0 <= m < self.tile(t as int).border_seq().len() ==> {
                &&& #[trigger] self.pixel_index(self.tile(t as int).border_seq()[m]) <= u32::MAX
                &&& self.pixel_index(self.tile(t as int).border_seq()[m]) < len
            }
        }
    }
}

/// Packed colour of the outline drawn round tiles in flight: orange, the
/// colour `(1.0, 0.65, 0.0)` after gamma correction, `(255, 206, 0)`.
pub const BORDER_MARK_COLOR: u32 = 0x00FF_CE00;

/// Manager for tiling the image and tracking which tiles are currently being rendered.
pub struct TileManager {
    frame_width: u32,
    frame_height: u32,
    tile_width: u32,
    tile_height: u32,
    tiles_count_horizontal: u32,
    pub tiles_count_total: u32,
    current_tiles_indices: HashSet<u32>,
}

impl View for TileManager {
    type V = TileManagerView;

    closed spec fn view(&self) -> TileManagerView {
        TileManagerView {
            frame_width: self.frame_width as int,
            frame_height: self.frame_height as int,
            tile_width: self.tile_width as int,
            tile_height: self.tile_height as int,
            tiles_count_horizontal: self.tiles_count_horizontal as int,
            tiles_count_total: self.tiles_count_total as int,
            current: self.current_tiles_indices@,
        }
    }
}

impl TileManager {
    /// Tiles of `tile_width` by `tile_height` pixels over the frame of
    /// `frame_buffer`, none of them in flight.
    pub fn new(tile_width: u32, tile_height: u32, frame_buffer: &FrameBuffer) -> (tm: TileManager)
        requires
            tiles_along(frame_buffer@.width, tile_width as int)
                * tiles_along(frame_buffer@.height, tile_height as int) <= u32::MAX,
        ensures
            tm@.frame_width == (frame_buffer@.width as u32) as int,
            tm@.frame_height == (frame_buffer@.height as u32) as int,
            tm@.tile_width == tile_width,
            tm@.tile_height == tile_height,
            tm@.tiles_count_horizontal == tiles_along(frame_buffer@.width, tile_width as int),
            tm@.tiles_count_total == tm@.tiles_count_horizontal
                * tiles_along(frame_buffer@.height, tile_height as int),
            tm@.current == Set::<u32>::empty(),
            frame_buffer@.width <= u32::MAX && frame_buffer@.height <= u32::MAX && tile_width > 0
                && tile_height > 0 ==> tm@.tiling_consistent(),
    {
        let width = frame_buffer.width();
        let height = frame_buffer.height();
        let frame_width = width as u32;
        let frame_height = height as u32;
        let tiles_count_horizontal = count_tiles_along(width, tile_width);
        let tiles_count_vertical = count_tiles_along(height, tile_height);
        let tiles_count_total = tiles_count_horizontal * tiles_count_vertical;
        proof {
            if width <= u32::MAX && height <= u32::MAX && tile_width > 0 && tile_height > 0 {
                lemma_ceil_div_capped_is_exact(width as int, tile_width as int);
                lemma_ceil_div_capped_is_exact(height as int, tile_height as int);
            }
        }
        TileManager {
            frame_width,
            frame_height,
            tile_width,
            tile_height,
            tiles_count_horizontal,
            tiles_count_total,
            current_tiles_indices: HashSet::new(),
        }
    }

    /// Number of tiles.
    pub fn tiles_count_total(&self) -> (n: u32)
        ensures
            n == self@.tiles_count_total,
    {
        self.tiles_count_total
    }

    fn create_tile(&self, tile_index: u32) -> (tile: Tile)
        requires
            self@.tile_defined(tile_index as int),
        ensures
            tile == self@.tile(tile_index as int),
    {
        let i = tile_index % self.tiles_count_horizontal;
        let j = tile_index / self.tiles_count_horizontal;
        let x = i * self.tile_width;
        let y = j * self.tile_height;
        let width = if self.tile_width < self.frame_width - x { self.tile_width } else { self.frame_width - x };
        let height = if self.tile_height < self.frame_height - y { self.tile_height } else { self.frame_height - y };
        Tile::new(tile_index, x, y, width, height)
    }

    /// Every tile, in index order.
    pub fn get_tiles_iter(&self) -> (tiles: Vec<Tile>)
        requires
            forall|t: int| 0 <= t < self@.tiles_count_total ==> #[trigger] self@.tile_defined(t),
        ensures
            tiles@.len() == self@.tiles_count_total,
            forall|t: int| 0 <= t < tiles@.len() ==> #[trigger] tiles@[t] == self@.tile(t),
    {
        let mut tiles: Vec<Tile> = Vec::new();
        let mut tile_index: u32 = 0;
        while tile_index < self.tiles_count_total
            invariant
                tile_index <= self@.tiles_count_total,
                tiles@.len() == tile_index,
                forall|t: int| 0 <= t < self@.tiles_count_total ==> #[trigger] self@.tile_defined(t),
                forall|t: int| 0 <= t < tiles@.len() ==> #[trigger] tiles@[t] == self@.tile(t),
            decreases self@.tiles_count_total - tile_index,
        {
            assert(self@.tile_defined(tile_index as int));
            let tile = self.create_tile(tile_index);
            tiles.push(tile);
            tile_index = tile_index + 1;
        }
        tiles
    }

    /// Draws the outline of every tile in flight into `buffer`, a row-major
    /// image of the frame, in the colour `BORDER_MARK_COLOR`.
    pub fn render_current_tiles_borders(&self, buffer: &mut Vec<u32>)
        requires
            self@.borders_drawable(old(buffer)@.len() as int),
        ensures
            final(buffer)@.len() == old(buffer)@.len(),
            forall|k: int| 0 <= k < old(buffer)@.len() ==> #[trigger] final(buffer)@[k] == if self@.marked(k) {
                BORDER_MARK_COLOR
            } else {
                old(buffer)@[k]
            },
    {
        broadcast use vstd::std_specs::hash::group_hash_axioms;
        let ghost start = buffer@;
        let ghost v = self@;
        let ghost keys: Seq<u32> =
            vstd::std_specs::hash::spec_hash_keys_iter(&self.current_tiles_indices).remaining().unref();
        assert(keys.to_set() == v.current);
        for idx in it: self.current_tiles_indices.iter()
            invariant
                v == self@,
                v.borders_drawable(start.len() as int),
                buffer@.len() == start.len(),
                it.seq().unref() == keys,
                keys.to_set() == v.current,
                forall|k: int| 0 <= k < start.len() ==> #[trigger] buffer@[k] == if exists|j: int|
                    0 <= j < it.index() && #[trigger] v.border_writes(keys[j], k) {
                    BORDER_MARK_COLOR
                } else {
                    start[k]
                },
        {
            let ghost j0 = it.index();
            let ghost before = buffer@;
            assert(keys[j0] == *idx);
            assert(v.current.contains(*idx));
            let tile = self.create_tile(*idx);
            let border = tile.borders_iter();
            let n = border.len();
            let mut m: usize = 0;
            while m < n
                invariant
                    v == self@,
                    v.borders_drawable(start.len() as int),
                    v.current.contains(*idx),
                    tile == v.tile(*idx as int),
                    border@ == tile.border_seq(),
                    n == border@.len(),
                    m <= n,
                    buffer@.len() == start.len(),
                    forall|k: int| 0 <= k < start.len() ==> #[trigger] buffer@[k] == if (exists|j: int|
                        0 <= j < j0 && #[trigger] v.border_writes(keys[j], k))
                        || (exists|m2: int| 0 <= m2 < m && #[trigger] v.pixel_index(border@[m2]) == k) {
                        BORDER_MARK_COLOR
                    } else {
                        start[k]
                    },
                decreases n - m,
            {
                let (x, y) = border[m];
                assert(v.pixel_index(border@[m as int]) <= u32::MAX);
                assert(y * self.frame_width <= y * self.frame_width + x);
                let index = (y * self.frame_width + x) as usize;
                buffer.set(index, BORDER_MARK_COLOR);
                m = m + 1;
            }
            proof {
                assert forall|k: int| 0 <= k < start.len() implies #[trigger] buffer@[k] == if exists|j: int|
                    0 <= j < j0 + 1 && #[trigger] v.border_writes(keys[j], k) {
                    BORDER_MARK_COLOR
                } else {
                    start[k]
                } by {
                    let now = exists|j: int| 0 <= j < j0 + 1 && #[trigger] v.border_writes(keys[j], k);
                    let earlier = exists|j: int| 0 <= j < j0 && #[trigger] v.border_writes(keys[j], k);
                    let here = exists|m2: int| 0 <= m2 < n && #[trigger] v.pixel_index(border@[m2]) == k;
                    if here {
                        let m2 = choose|m2: int| 0 <= m2 < n && #[trigger] v.pixel_index(border@[m2]) == k;
                        assert(v.border_writes(keys[j0], k));
                    }
                    if v.border_writes(keys[j0], k) {
                        let m2 = choose|m2: int|
                            0 <= m2 < v.tile(keys[j0] as int).border_seq().len()
                                && #[trigger] v.pixel_index(v.tile(keys[j0] as int).border_seq()[m2]) == k;
                        assert(v.pixel_index(border@[m2]) == k);
                    }
                    if now {
                        let j = choose|j: int| 0 <= j < j0 + 1 && #[trigger] v.border_writes(keys[j], k);
                        if j < j0 {
                            assert(earlier);
                        }
                    }
                    if earlier {
                        let j = choose|j: int| 0 <= j < j0 && #[trigger] v.border_writes(keys[j], k);
                        assert(now);
                    }
                }
            }
        }
        proof {
            assert forall|k: int| 0 <= k < start.len() implies #[trigger] buffer@[k] == if v.marked(k) {
                BORDER_MARK_COLOR
            } else {
                start[k]
            } by {
                if v.marked(k) {
                    let t = choose|t: u32| v.current.contains(t) && #[trigger] v.border_writes(t, k);
                    assert(keys.to_set().contains(t));
                    let j = choose|j: int| 0 <= j < keys.len() && keys[j] == t;
                    assert(v.border_writes(keys[j], k));
                } else {
                }
            }
        }
    }

    /// Records that `tile` is being rendered.
    pub fn start_tile(&mut self, tile: &Tile)
        ensures
            final(self)@ == (TileManagerView { current: old(self)@.current.insert(tile.index), ..old(self)@ }),
    {
        broadcast use vstd::std_specs::hash::group_hash_axioms;
        self.current_tiles_indices.insert(tile.index);
    }

    /// Records that `tile` is no longer being rendered.
    pub fn finish_tile(&mut self, tile: &Tile)
        ensures
            final(self)@ == (TileManagerView { current: old(self)@.current.remove(tile.index), ..old(self)@ }),
    {
        broadcast use vstd::std_specs::hash::group_hash_axioms;
        self.current_tiles_indices.remove(&tile.index);
    }
}


/// `(ceil_div(len, side) - 1) * side < len`: the last tile along a side
/// starts inside the frame.
proof fn lemma_last_tile_starts_inside(len: int, side: int, i: int)
    requires
        0 < side,
        0 <= i < ceil_div(len, side),
    ensures
        0 <= i * side < len,
{
    let q = len / side;
    let r = len % side;
    vstd::arithmetic::div_mod::lemma_fundamental_div_mod(len, side);
    assert(0 <= r < side);
    assert(len == side * q + r);
    assert(i <= ceil_div(len, side) - 1);
    if r == 0 {
        assert(i <= q - 1);
        assert(i * side <= (q - 1) * side) by (nonlinear_arith)
            requires i <= q - 1, 0 < side;
        assert((q - 1) * side == side * q - side) by (nonlinear_arith);
    } else {
        assert(i <= q);
        assert(i * side <= q * side) by (nonlinear_arith)
            requires i <= q, 0 < side;
        assert(q * side == side * q) by (nonlinear_arith);
    }
    assert(0 <= i * side) by (nonlinear_arith)
        requires 0 <= i, 0 < side;
}

/// A coordinate `c < len` falls in a tile whose number is below the count.
proof fn lemma_coordinate_tile_in_range(len: int, side: int, c: int)
    requires
        0 < side,
        0 <= c < len,
    ensures
        0 <= c / side < ceil_div(len, side),
{
    vstd::arithmetic::div_mod::lemma_div_is_ordered(c, len, side);
    vstd::arithmetic::div_mod::lemma_div_pos_is_pos(c, side);
    if len % side == 0 {
        vstd::arithmetic::div_mod::lemma_fundamental_div_mod(len, side);
        vstd::arithmetic::div_mod::lemma_fundamental_div_mod(c, side);
        if c / side >= len / side {
            assert((c / side) * side >= (len / side) * side) by (nonlinear_arith)
                requires c / side >= len / side, 0 < side;
            assert(side * (c / side) >= side * (len / side)) by (nonlinear_arith)
                requires (c / side) * side >= (len / side) * side;
        }
    }
}

/// In a consistent tiling every tile lies inside the frame, has at least one
/// pixel, and can be built, enumerated and outlined without a fault.
pub proof fn lemma_tile_inside_frame(v: TileManagerView, t: int)
    requires
        v.tiling_consistent(),
        0 <= t < v.tiles_count_total,
    ensures
        v.tile_defined(t),
        v.tile(t).x == v.tile_x(t),
        v.tile(t).y == v.tile_y(t),
        v.tile(t).width >= 1,
        v.tile(t).height >= 1,
        v.tile(t).x + v.tile(t).width <= v.frame_width,
        v.tile(t).y + v.tile(t).height <= v.frame_height,
        v.tile(t).width <= v.tile_width,
        v.tile(t).height <= v.tile_height,
        v.tile(t).pixels_defined(),
        v.tile(t).borders_defined(),
{
    let h = v.tiles_count_horizontal;
    let vc = ceil_div(v.frame_height, v.tile_height);
    assert(h > 0 && vc > 0) by {
        if h <= 0 || vc <= 0 {
            assert(h * vc <= 0) by (nonlinear_arith)
                requires h <= 0 || vc <= 0, h >= 0 || vc >= 0;
        }
        assert(h >= 0) by {
            vstd::arithmetic::div_mod::lemma_div_pos_is_pos(v.frame_width, v.tile_width);
        }
        assert(vc >= 0) by {
            vstd::arithmetic::div_mod::lemma_div_pos_is_pos(v.frame_height, v.tile_height);
        }
    }
    let i = t % h;
    let j = t / h;
    vstd::arithmetic::div_mod::lemma_fundamental_div_mod(t, h);
    assert(0 <= i < h);
    assert(0 <= j < vc) by {
        vstd::arithmetic::div_mod::lemma_div_pos_is_pos(t, h);
        if j >= vc {
            assert(h * j >= h * vc) by (nonlinear_arith)
                requires j >= vc, h > 0;
            assert(h * vc == v.tiles_count_total) by (nonlinear_arith)
                requires v.tiles_count_total == h * vc;
        }
    }
    lemma_last_tile_starts_inside(v.frame_width, v.tile_width, i);
    lemma_last_tile_starts_inside(v.frame_height, v.tile_height, j);
}

/// Every pixel of the frame lies in the tile numbered `tile_index_of`, and in
/// no other tile: the tiles split the frame with neither gap nor overlap.
pub proof fn lemma_tiles_partition_frame(v: TileManagerView, px: int, py: int, t: int)
    requires
        v.tiling_consistent(),
        0 <= px < v.frame_width,
        0 <= py < v.frame_height,
    ensures
        0 <= v.tile_index_of(px, py) < v.tiles_count_total,
        v.tile(v.tile_index_of(px, py)).contains_pixel(px, py),
        0 <= t < v.tiles_count_total && v.tile(t).contains_pixel(px, py) ==> t == v.tile_index_of(px, py),
{
    let h = v.tiles_count_horizontal;
    let vc = ceil_div(v.frame_height, v.tile_height);
    let tw = v.tile_width;
    let th = v.tile_height;
    let a = px / tw;
    let b = py / th;
    lemma_coordinate_tile_in_range(v.frame_width, tw, px);
    lemma_coordinate_tile_in_range(v.frame_height, th, py);
    let s = v.tile_index_of(px, py);
    assert(s == b * h + a);
    assert(0 <= s < h * vc) by (nonlinear_arith)
        requires 0 <= a < h, 0 <= b < vc, s == b * h + a;
    lemma_fundamental_div_mod_converse(s, h, b, a);
    lemma_tile_inside_frame(v, s);
    vstd::arithmetic::div_mod::lemma_fundamental_div_mod(px, tw);
    vstd::arithmetic::div_mod::lemma_fundamental_div_mod(py, th);
    assert(a * tw == tw * a) by (nonlinear_arith);
    assert(b * th == th * b) by (nonlinear_arith);
    if 0 <= t < v.tiles_count_total && v.tile(t).contains_pixel(px, py) {
        lemma_tile_inside_frame(v, t);
        let i = t % h;
        let j = t / h;
        vstd::arithmetic::div_mod::lemma_fundamental_div_mod(t, h);
        assert(i * tw <= px < i * tw + tw);
        assert(j * th <= py < j * th + th);
        assert(px == i * tw + (px - i * tw));
        lemma_fundamental_div_mod_converse(px, tw, i, px - i * tw);
        lemma_fundamental_div_mod_converse(py, th, j, py - j * th);
        assert(t == j * h + i) by (nonlinear_arith)
            requires t == h * j + i;
    }
}


/// `pixels_iter` gives exactly the pixels of the tile: each entry lies in the
/// tile, and each pixel of the tile sits at position `row * width + column`.
pub proof fn lemma_pixel_seq_is_tile(tile: Tile, px: int, py: int)
    requires
        tile.pixels_defined(),
    ensures
        forall|k: int| 0 <= k < tile.pixel_seq().len()
            ==> tile.contains_pixel((#[trigger] tile.pixel_seq()[k]).0 as int, tile.pixel_seq()[k].1 as int),
        tile.contains_pixel(px, py) ==> {
            let k = (py - tile.y) * tile.width + (px - tile.x);
            &&& 0 <= k < tile.pixel_seq().len()
            &&& tile.pixel_seq()[k] == (px as u32, py as u32)
        },
{
    let w = tile.width as int;
    let h = tile.height as int;
    assert forall|k: int| 0 <= k < tile.pixel_seq().len()
        implies tile.contains_pixel((#[trigger] tile.pixel_seq()[k]).0 as int, tile.pixel_seq()[k].1 as int) by {
        assert(w * h > 0);
        assert(w > 0) by (nonlinear_arith)
            requires w * h > 0, w >= 0, h >= 0;
        vstd::arithmetic::div_mod::lemma_fundamental_div_mod(k, w);
        assert(k / w < h) by {
            if k / w >= h {
                assert(w * (k / w) >= w * h) by (nonlinear_arith)
                    requires k / w >= h, w > 0;
            }
        }
        vstd::arithmetic::div_mod::lemma_div_pos_is_pos(k, w);
    }
    if tile.contains_pixel(px, py) {
        let k = (py - tile.y) * w + (px - tile.x);
        lemma_fundamental_div_mod_converse(k, w, py - tile.y, px - tile.x);
        assert(0 <= k < w * h) by (nonlinear_arith)
            requires 0 <= py - tile.y < h, 0 <= px - tile.x < w, k == (py - tile.y) * w + (px - tile.x);
    }
}

/// `borders_iter` gives exactly the outline of a tile of at least one pixel:
/// each entry is on the border, and each border pixel is among the entries.
pub proof fn lemma_border_seq_is_outline(tile: Tile, px: int, py: int)
    requires
        tile.borders_defined(),
        tile.width >= 1,
    ensures
        forall|m: int| 0 <= m < tile.border_seq().len()
            ==> tile.on_border((#[trigger] tile.border_seq()[m]).0 as int, tile.border_seq()[m].1 as int),
        tile.on_border(px, py) ==> exists|m: int|
            0 <= m < tile.border_seq().len() && #[trigger] tile.border_seq()[m] == (px as u32, py as u32),
{
    let x = tile.x as int;
    let y = tile.y as int;
    let w = tile.width as int;
    let h = tile.height as int;
    let top = tile.top_edge();
    let right = tile.right_edge();
    let bottom = tile.bottom_edge();
    let left = tile.left_edge();
    let s = tile.side_len();
    let all = tile.border_seq();
    assert(all.len() == w + s + w + s);
    assert forall|m: int| 0 <= m < all.len()
        implies tile.on_border((#[trigger] all[m]).0 as int, all[m].1 as int) by {
        if m < w {
            assert(all[m] == top[m]);
        } else if m < w + s {
            assert(all[m] == right[m - w]);
        } else if m < w + s + w {
            assert(all[m] == bottom[m - w - s]);
        } else {
            assert(all[m] == left[m - w - s - w]);
        }
    }
    if tile.on_border(px, py) {
        if py == y {
            let m = px - x;
            assert(all[m] == top[m]);
            assert(all[m] == (px as u32, py as u32));
        } else if py == y + h - 1 {
            let m = w + s + (px - x);
            assert(all[m] == bottom[px - x]);
            assert(all[m] == (px as u32, py as u32));
        } else if px == x + w - 1 {
            let m = w + (py - y - 1);
            assert(all[m] == right[py - y - 1]);
            assert(all[m] == (px as u32, py as u32));
        } else {
            let m = w + s + w + (py - y - 1);
            assert(all[m] == left[py - y - 1]);
            assert(all[m] == (px as u32, py as u32));
        }
    }
}


/// Each pixel of the frame is produced by the `pixels_iter` of exactly one
/// tile: the one numbered `tile_index_of`. Tiles rendered in parallel thus
/// never write the same pixel.
pub proof fn lemma_each_pixel_rendered_once(v: TileManagerView, px: int, py: int, t: int, k: int)
    requires
        v.tiling_consistent(),
        0 <= px < v.frame_width,
        0 <= py < v.frame_height,
    ensures
        0 <= v.tile_index_of(px, py) < v.tiles_count_total,
        v.tile(v.tile_index_of(px, py)).pixel_seq().contains((px as u32, py as u32)),
        0 <= t < v.tiles_count_total && 0 <= k < v.tile(t).pixel_seq().len()
            && v.tile(t).pixel_seq()[k] == (px as u32, py as u32) ==> t == v.tile_index_of(px, py),
{
    let s = v.tile_index_of(px, py);
    lemma_tiles_partition_frame(v, px, py, t);
    lemma_tile_inside_frame(v, s);
    lemma_pixel_seq_is_tile(v.tile(s), px, py);
    let k0 = (py - v.tile(s).y) * v.tile(s).width + (px - v.tile(s).x);
    assert(v.tile(s).pixel_seq()[k0] == (px as u32, py as u32));
    if 0 <= t < v.tiles_count_total && 0 <= k < v.tile(t).pixel_seq().len()
        && v.tile(t).pixel_seq()[k] == (px as u32, py as u32) {
        lemma_tile_inside_frame(v, t);
        lemma_pixel_seq_is_tile(v.tile(t), px, py);
        assert(v.tile(t).contains_pixel(px, py));
    }
}

/// In a consistent tiling whose tiles in flight are tiles of the frame, their
/// outlines can be drawn into any buffer that holds the frame, as long as
/// every pixel index fits in a `u32`.
pub proof fn lemma_borders_drawable(v: TileManagerView, len: int)
    requires
        v.tiling_consistent(),
        v.current_in_range(),
        v.frame_width * v.frame_height <= len,
        v.frame_width * v.frame_height <= u32::MAX + 1,
    ensures
        v.borders_drawable(len),
{
    assert forall|t: u32| #[trigger] v.current.contains(t) implies {
        &&& v.tile_defined(t as int)
        &&& v.tile(t as int).borders_defined()
        &&& forall|m: int| 0 <= m < v.tile(t as int).border_seq().len() ==> {
            &&& #[trigger] v.pixel_index(v.tile(t as int).border_seq()[m]) <= u32::MAX
            &&& v.pixel_index(v.tile(t as int).border_seq()[m]) < len
        }
    } by {
        lemma_tile_inside_frame(v, t as int);
        let tile = v.tile(t as int);
        lemma_border_seq_is_outline(tile, 0, 0);
        assert forall|m: int| 0 <= m < tile.border_seq().len() implies {
            &&& #[trigger] v.pixel_index(tile.border_seq()[m]) <= u32::MAX
            &&& v.pixel_index(tile.border_seq()[m]) < len
        } by {
            let p = tile.border_seq()[m];
            assert(tile.on_border(p.0 as int, p.1 as int));
            let fw = v.frame_width;
            let fh = v.frame_height;
            assert(p.1 * fw + p.0 < fw * fh) by (nonlinear_arith)
                requires 0 <= p.0 < fw, 0 <= p.1 < fh;
        }
    }
}

/// The slots that `render_current_tiles_borders` paints are exactly the
/// pixels of the frame that lie on the outline of a tile in flight.
pub proof fn lemma_marked_is_outline(v: TileManagerView, k: int)
    requires
        v.tiling_consistent(),
        v.current_in_range(),
        v.frame_width > 0,
    ensures
        v.marked(k) <==> (0 <= k < v.frame_width * v.frame_height && exists|t: u32|
            v.current.contains(t) && #[trigger] v.tile(t as int).on_border(k % v.frame_width, k / v.frame_width)),
{
    let fw = v.frame_width;
    let fh = v.frame_height;
    if v.marked(k) {
        let t = choose|t: u32| v.current.contains(t) && #[trigger] v.border_writes(t, k);
        let tile = v.tile(t as int);
        lemma_tile_inside_frame(v, t as int);
        lemma_border_seq_is_outline(tile, 0, 0);
        let m = choose|m: int|
            0 <= m < tile.border_seq().len() && #[trigger] v.pixel_index(tile.border_seq()[m]) == k;
        let p = tile.border_seq()[m];
        assert(tile.on_border(p.0 as int, p.1 as int));
        lemma_fundamental_div_mod_converse(k, fw, p.1 as int, p.0 as int);
        assert(p.1 * fw + p.0 < fw * fh) by (nonlinear_arith)
            requires 0 <= p.0 < fw, 0 <= p.1 < fh;
        assert(v.tile(t as int).on_border(k % fw, k / fw));
    }
    if 0 <= k < fw * fh && exists|t: u32|
        v.current.contains(t) && #[trigger] v.tile(t as int).on_border(k % fw, k / fw) {
        let t = choose|t: u32| v.current.contains(t) && #[trigger] v.tile(t as int).on_border(k % fw, k / fw);
        let tile = v.tile(t as int);
        lemma_tile_inside_frame(v, t as int);
        lemma_border_seq_is_outline(tile, k % fw, k / fw);
        vstd::arithmetic::div_mod::lemma_fundamental_div_mod(k, fw);
        let m = choose|m: int|
            0 <= m < tile.border_seq().len() && #[trigger] tile.border_seq()[m] == ((k % fw) as u32, (k / fw) as u32);
        assert((k / fw) * fw == fw * (k / fw)) by (nonlinear_arith);
        assert(v.pixel_index(tile.border_seq()[m]) == k);
        assert(v.border_writes(t, k));
    }
}


/// Finishing a tile that was not in flight before it was started leaves the
/// set of tiles in flight as it was before the start.
pub proof fn lemma_finish_undoes_start(v: TileManagerView, index: u32)
    requires
        !v.current.contains(index),
    ensures
        v.current.insert(index).remove(index) == v.current,
{
    assert(v.current.insert(index).remove(index) =~= v.current);
}


/// The tile manager that lays the frame buffer's tiles over its frame.
pub open spec fn frame_tiling(fb: FrameBufferView) -> TileManagerView {
    TileManagerView {
        frame_width: fb.width,
        frame_height: fb.height,
        tile_width: fb.tile_width,
        tile_height: fb.tile_height,
        tiles_count_horizontal: fb.tiles_count_horizontal,
        tiles_count_total: fb.tiles_count_total,
        current: Set::empty(),
    }
}

/// A consistent frame buffer gives a consistent tile manager.
proof fn lemma_frame_tiling_consistent(fb: FrameBufferView)
    requires
        fb.tiling_consistent(),
    ensures
        frame_tiling(fb).tiling_consistent(),
{
    assert(fb.tiles_count_horizontal * fb.tiles_count_vertical == fb.tiles_count_horizontal
        * ceil_div(fb.height, fb.tile_height));
}

/// The tiles of `FrameBuffer::get_tiles` are those of a tile manager over the
/// same frame and tile size.
pub proof fn lemma_frame_buffer_tiles_agree(fb: FrameBufferView, t: int, tile: crate::frame_buffer::Tile)
    requires
        fb.tiling_consistent(),
        0 <= t < fb.tiles_count_total,
    ensures
        frame_tiling(fb).tiling_consistent(),
        fb.tile_defined(t),
        fb.is_tile(t, tile) ==> {
            let m = frame_tiling(fb).tile(t);
            &&& tile.index == m.index
            &&& tile.x == m.x
            &&& tile.y == m.y
            &&& tile.width == m.width
            &&& tile.height == m.height
        },
{
    let v = frame_tiling(fb);
    lemma_frame_tiling_consistent(fb);
    lemma_tile_inside_frame(v, t);
    assert((fb.width as u32) as int == v.frame_width);
    assert((fb.height as u32) as int == v.frame_height);
}

/// The tiles of `FrameBuffer::get_tiles` split the frame with neither gap nor
/// overlap: each pixel lies in the tile numbered `tile_index_of`, and in no
/// other tile.
pub proof fn lemma_frame_buffer_tiles_partition_frame(
    fb: FrameBufferView,
    px: int,
    py: int,
    t: int,
    tile: crate::frame_buffer::Tile,
)
    requires
        fb.tiling_consistent(),
        0 <= px < fb.width,
        0 <= py < fb.height,
    ensures
        0 <= frame_tiling(fb).tile_index_of(px, py) < fb.tiles_count_total,
        fb.is_tile(frame_tiling(fb).tile_index_of(px, py), tile)
            ==> tile.x <= px < tile.x + tile.width && tile.y <= py < tile.y + tile.height,
        0 <= t < fb.tiles_count_total && fb.is_tile(t, tile) && tile.x <= px < tile.x + tile.width
            && tile.y <= py < tile.y + tile.height ==> t == frame_tiling(fb).tile_index_of(px, py),
{
    let v = frame_tiling(fb);
    let s = v.tile_index_of(px, py);
    lemma_frame_tiling_consistent(fb);
    lemma_tiles_partition_frame(v, px, py, t);
    lemma_frame_buffer_tiles_agree(fb, s, tile);
    if 0 <= t < fb.tiles_count_total {
        lemma_frame_buffer_tiles_agree(fb, t, tile);
    }
}

} // verus!
