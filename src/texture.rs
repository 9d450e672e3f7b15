//! Textures as grids of texels, stored row by row. A texel is any `Copy`
//! value; the renderer uses its color type. Lookup clamps the coordinates to
//! the grid, so every position maps to some texel.
use vstd::prelude::*;

verus! {

/// Side of the placeholder texture used when an image cannot be loaded.
pub const FALLBACK_SIZE: usize = 64;

/// Side of one square of the placeholder's checker pattern.
pub const FALLBACK_CELL: usize = 8;

/// Whether texel `(x, y)` of the placeholder lies in a light square.
pub open spec fn is_light_square(x: int, y: int) -> bool {
    (x / FALLBACK_CELL as int + y / FALLBACK_CELL as int) % 2 == 0
}

#[derive(Clone, Debug)]
pub struct Texture<C> {
    pub width: usize,
    pub height: usize,
    pub data: Vec<C>,
}

impl<C: Copy> Texture<C> {
    /// A texture with at least one texel and one texel per grid position.
    pub open spec fn wf(&self) -> bool {
        &&& self.width > 0
        &&& self.height > 0
        &&& self.width * self.height <= usize::MAX
        &&& self.data@.len() == self.width * self.height
    }

    /// Position in `data` of the texel that lookup at `(x, y)` returns: the
    /// coordinates are first clamped to the last column and row.
    pub open spec fn clamped_index(&self, x: int, y: int) -> int {
        let cx = if x < self.width - 1 { x } else { self.width - 1 };
        let cy = if y < self.height - 1 { y } else { self.height - 1 };
        cy * self.width + cx
    }

    /// A `width` by `height` texture with every texel set to `fill`.
    pub fn new(width: usize, height: usize, fill: C) -> (t: Texture<C>)
        requires
            width * height <= usize::MAX,
        ensures
            t.width == width,
            t.height == height,
            t.data@ == Seq::new((width * height) as nat, |i: int| fill),
    {
        let n = width * height;
        let mut data: Vec<C> = Vec::new();
        let mut i: usize = 0;
        while i < n
            invariant
                i <= n,
                data@ == Seq::new(i as nat, |k: int| fill),
            decreases n - i,
        {
            data.push(fill);
            i += 1;
            proof {
                assert(data@ =~= Seq::new(i as nat, |k: int| fill));
            }
        }
        Texture { width, height, data }
    }

    /// A one-texel texture of a single color.
    pub fn from_color(color: C) -> (t: Texture<C>)
        ensures
            t.wf(),
            t.width == 1,
            t.height == 1,
            t.data@ == seq![color],
    {
        let mut data: Vec<C> = Vec::new();
        data.push(color);
        proof {
            assert(data@ =~= seq![color]);
        }
        Texture { width: 1, height: 1, data }
    }

    /// The placeholder for an image that cannot be loaded: `FALLBACK_SIZE`
    /// texels square, checkered in squares of `FALLBACK_CELL` texels, with
    /// `light` in the square at the origin.
    pub fn checkerboard(light: C, dark: C) -> (t: Texture<C>)
        ensures
            t.wf(),
            t.width == FALLBACK_SIZE,
            t.height == FALLBACK_SIZE,
            forall|x: int, y: int|
                0 <= x < FALLBACK_SIZE && 0 <= y < FALLBACK_SIZE ==> #[trigger] t.data@[y
                    * FALLBACK_SIZE + x] == if is_light_square(x, y) {
                    light
                } else {
                    dark
                },
    {
        let size = FALLBACK_SIZE;
        let mut data: Vec<C> = Vec::new();
        let mut y: usize = 0;
        while y < size
            invariant
                size == FALLBACK_SIZE,
                y <= size,
                data@.len() == y * size,
                forall|py: int, px: int|
                    0 <= py < y && 0 <= px < size ==> #[trigger] data@[py * size + px] == if is_light_square(
                        px,
                        py,
                    ) {
                        light
                    } else {
                        dark
                    },
            decreases size - y,
        {
            let mut x: usize = 0;
            while x < size
                invariant
                    size == FALLBACK_SIZE,
                    y < size,
                    x <= size,
                    data@.len() == y * size + x,
                    forall|py: int, px: int|
                        (0 <= py < y && 0 <= px < size) || (py == y && 0 <= px < x)
                            ==> #[trigger] data@[py * size + px] == if is_light_square(px, py) {
                            light
                        } else {
                            dark
                        },
                decreases size - x,
            {
                let c = if (x / FALLBACK_CELL + y / FALLBACK_CELL) % 2 == 0 {
                    light
                } else {
                    dark
                };
                proof {
                    assert forall|py: int, px: int|
                        (0 <= py < y && 0 <= px < size) || (py == y && 0 <= px < x) implies #[trigger] (py
                        * size + px) < y * size + x by {
                        assert(py * size + px < y * size + x) by (nonlinear_arith)
                            requires
                                (0 <= py < y && 0 <= px < size) || (py == y && 0 <= px < x),
                        ;
                    }
                }
                data.push(c);
                x += 1;
            }
            y += 1;
        }
        Texture { width: size, height: size, data }
    }

    /// The texel at column `x`, row `y`; coordinates past the last column or
    /// row read the last one.
    pub fn texel(&self, x: usize, y: usize) -> (c: C)
        requires
            self.wf(),
        ensures
            c == self.data@[self.clamped_index(x as int, y as int)],
    {
        let cx = if x < self.width - 1 {
            x
        } else {
            self.width - 1
        };
        let cy = if y < self.height - 1 {
            y
        } else {
            self.height - 1
        };
        proof {
            assert(cy * self.width + cx < self.width * self.height) by (nonlinear_arith)
                requires
                    cx < self.width,
                    cy < self.height,
            ;
        }
        self.data[cy * self.width + cx]
    }
}

} // verus!
