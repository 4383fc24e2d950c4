use vstd::prelude::*;

verus! {

/// An axis-aligned box given by its corners, as the rectangle packer hands
/// them out: `min` is inclusive and `max` exclusive.
#[derive(Clone, Copy, Debug, PartialEq, Eq, Structural)]
pub struct Rectangle {
    pub min_x: i32,
    pub min_y: i32,
    pub max_x: i32,
    pub max_y: i32,
}

impl Rectangle {
    pub open spec fn width_spec(self) -> int {
        self.max_x - self.min_x
    }

    pub open spec fn height_spec(self) -> int {
        self.max_y - self.min_y
    }

    /// Whether `(x, y)` lies inside the box.
    pub open spec fn holds(self, x: int, y: int) -> bool {
        self.min_x <= x < self.max_x && self.min_y <= y < self.max_y
    }

    /// Whether the box lies inside `0..width` by `0..height`.
    pub open spec fn within(self, width: int, height: int) -> bool {
        0 <= self.min_x <= self.max_x <= width && 0 <= self.min_y <= self.max_y <= height
    }

    pub fn width(&self) -> (w: i32)
        requires
            self.min_x <= self.max_x,
            self.min_x >= 0,
        ensures
            w == self.width_spec(),
    {
        self.max_x - self.min_x
    }

    pub fn height(&self) -> (h: i32)
        requires
            self.min_y <= self.max_y,
            self.min_y >= 0,
        ensures
            h == self.height_spec(),
    {
        self.max_y - self.min_y
    }
}

/// Two boxes share no point.
pub open spec fn disjoint(a: Rectangle, b: Rectangle) -> bool {
    a.max_x <= b.min_x || b.max_x <= a.min_x || a.max_y <= b.min_y || b.max_y <= a.min_y
}

/// Every two distinct entries of `m` are disjoint boxes.
pub open spec fn pairwise_disjoint(m: Map<u32, Rectangle>) -> bool {
    forall|i: u32, j: u32|
        #![trigger m[i], m[j]]
        m.contains_key(i) && m.contains_key(j) && i != j ==> disjoint(m[i], m[j])
}

/// A rectangle given by its top-left corner and its size, as texture slices
/// use it.
#[derive(Clone, Copy, Debug, PartialEq, Eq, Structural)]
pub struct Rect {
    pub x: i32,
    pub y: i32,
    pub width: u32,
    pub height: u32,
}

impl Rect {
    pub fn new(x: i32, y: i32, width: u32, height: u32) -> (r: Rect)
        ensures
            r == (Rect { x, y, width, height }),
    {
        Rect { x, y, width, height }
    }

    pub open spec fn new_spec(x: i32, y: i32, width: u32, height: u32) -> Rect {
        Rect { x, y, width, height }
    }

    pub open spec fn left(self) -> int {
        self.x as int
    }

    pub open spec fn top(self) -> int {
        self.y as int
    }

    pub open spec fn right(self) -> int {
        self.x + self.width
    }

    pub open spec fn bottom(self) -> int {
        self.y + self.height
    }

    /// Whether `inner` lies inside this rectangle.
    pub open spec fn encloses(self, inner: Rect) -> bool {
        self.left() <= inner.left() && inner.right() <= self.right() && self.top() <= inner.top()
            && inner.bottom() <= self.bottom()
    }
}

} // verus!
