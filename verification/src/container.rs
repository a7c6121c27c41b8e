//! Node payloads: the tagged container variants, layout policies, window
//! handles and rectangle geometry.

use vstd::prelude::*;

verus! {

/// Minimum permitted width or height of any sizeable node.
pub const MIN_SIZE: u32 = 10;

/// Largest coordinate a rectangle edge may reach; keeps offset sums
/// representable in `u32` arithmetic.
pub const MAX_COORD: u32 = 0x7fff_ffff;

/// Arrangement policy for the children of a split container.
#[derive(Clone, Copy, Debug, PartialEq, Eq, Structural)]
pub enum Layout {
    Horizontal,
    Vertical,
    Tabbed,
    Stacked,
}

/// Discriminant of a `Container` variant.
#[derive(Clone, Copy, Debug, PartialEq, Eq, Structural)]
pub enum ContainerType {
    Root,
    Output,
    Workspace,
    Container,
    View,
}

/// An axis-aligned rectangle: position of the top-left corner plus extent.
#[derive(Clone, Copy, Debug, PartialEq, Eq, Structural)]
pub struct Rect {
    pub x: u32,
    pub y: u32,
    pub w: u32,
    pub h: u32,
}

impl Rect {
    /// A rectangle is sizeable when both extents respect `MIN_SIZE` and its
    /// far edges stay below `MAX_COORD`, so offset arithmetic cannot wrap.
    pub open spec fn sizeable(self) -> bool {
        &&& self.w >= MIN_SIZE
        &&& self.h >= MIN_SIZE
        &&& self.x + self.w <= MAX_COORD
        &&& self.y + self.h <= MAX_COORD
    }
}

/// The start of a rectangle along one axis: x for the horizontal axis,
/// y for the vertical one.
pub open spec fn axis_lo(r: Rect, horiz: bool) -> int {
    if horiz {
        r.x as int
    } else {
        r.y as int
    }
}

/// The extent of a rectangle along one axis.
pub open spec fn axis_ext(r: Rect, horiz: bool) -> int {
    if horiz {
        r.w as int
    } else {
        r.h as int
    }
}

/// The start of a rectangle across the axis.
pub open spec fn cross_lo(r: Rect, horiz: bool) -> int {
    if horiz {
        r.y as int
    } else {
        r.x as int
    }
}

/// The extent of a rectangle across the axis.
pub open spec fn cross_ext(r: Rect, horiz: bool) -> int {
    if horiz {
        r.h as int
    } else {
        r.w as int
    }
}

/// The rectangle with its along-axis start and extent replaced.
pub open spec fn set_axis_spec(r: Rect, horiz: bool, lo: u32, ext: u32) -> Rect {
    if horiz {
        Rect { x: lo, y: r.y, w: ext, h: r.h }
    } else {
        Rect { x: r.x, y: lo, w: r.w, h: ext }
    }
}

impl Rect {
    /// Replace the along-axis start and extent, keeping the cross axis.
    pub fn set_axis(self, horiz: bool, lo: u32, ext: u32) -> (r: Rect)
        ensures
            r == set_axis_spec(self, horiz, lo, ext),
    {
        if horiz {
            Rect { x: lo, y: self.y, w: ext, h: self.h }
        } else {
            Rect { x: self.x, y: lo, w: self.w, h: ext }
        }
    }

    /// Decide `sizeable` at run time.
    pub fn check_sizeable(self) -> (b: bool)
        ensures
            b == self.sizeable(),
    {
        self.w >= MIN_SIZE && self.h >= MIN_SIZE && self.w <= MAX_COORD && self.x <= MAX_COORD
            - self.w && self.h <= MAX_COORD && self.y <= MAX_COORD - self.h
    }

    /// The along-axis start.
    pub open spec fn lo_spec(self, horiz: bool) -> u32 {
        if horiz {
            self.x
        } else {
            self.y
        }
    }

    /// The along-axis start.
    pub fn lo(self, horiz: bool) -> (r: u32)
        ensures
            r == self.lo_spec(horiz),
            r as int == axis_lo(self, horiz),
    {
        if horiz {
            self.x
        } else {
            self.y
        }
    }

    /// The along-axis extent.
    pub open spec fn ext_spec(self, horiz: bool) -> u32 {
        if horiz {
            self.w
        } else {
            self.h
        }
    }

    /// The along-axis extent.
    pub fn ext(self, horiz: bool) -> (r: u32)
        ensures
            r == self.ext_spec(horiz),
            r as int == axis_ext(self, horiz),
    {
        if horiz {
            self.w
        } else {
            self.h
        }
    }
}

/// Opaque reference to an on-screen window surface. The windowing backend
/// identifies the surface by `id`; `title` and `class` are the read-only
/// queries the backend answers for it.
#[derive(Debug)]
pub struct Handle {
    pub id: u64,
    pub title: String,
    pub class: String,
}

impl Handle {
    pub fn new(id: u64, title: String, class: String) -> (r: Handle)
        ensures
            r.id == id,
            r.title == title,
            r.class == class,
    {
        Handle { id, title, class }
    }

    pub fn get_title(&self) -> (r: &String)
        ensures
            r == self.title,
    {
        &self.title
    }

    pub fn get_class(&self) -> (r: &String)
        ensures
            r == self.class,
    {
        &self.class
    }
}

impl Clone for Handle {
    fn clone(&self) -> (r: Handle)
        ensures
            r == self,
    {
        Handle { id: self.id, title: self.title.clone(), class: self.class.clone() }
    }
}

/// Payload of a node in the layout tree.
#[derive(Debug)]
pub enum Container {
    /// Single sentinel ancestor of all outputs; never removed.
    Root,
    /// A physical display, distinguished by a stable identity.
    Output { output_id: u64 },
    /// A named logical desktop.
    Workspace { name: String, rect: Rect },
    /// A split node arranging its children by `layout`.
    Container { layout: Layout, id: u64, rect: Rect },
    /// A leaf wrapping one on-screen window.
    View { handle: Handle, id: u64, rect: Rect },
}

impl Clone for Container {
    fn clone(&self) -> (r: Container)
        ensures
            r == self,
    {
        match self {
            Container::Root => Container::Root,
            Container::Output { output_id } => Container::Output { output_id: *output_id },
            Container::Workspace { name, rect } => Container::Workspace {
                name: name.clone(),
                rect: *rect,
            },
            Container::Container { layout, id, rect } => Container::Container {
                layout: *layout,
                id: *id,
                rect: *rect,
            },
            Container::View { handle, id, rect } => Container::View {
                handle: handle.clone(),
                id: *id,
                rect: *rect,
            },
        }
    }
}

impl Container {
    pub open spec fn get_type_spec(self) -> ContainerType {
        match self {
            Container::Root => ContainerType::Root,
            Container::Output { .. } => ContainerType::Output,
            Container::Workspace { .. } => ContainerType::Workspace,
            Container::Container { .. } => ContainerType::Container,
            Container::View { .. } => ContainerType::View,
        }
    }

    pub fn get_type(&self) -> (r: ContainerType)
        ensures
            r == self.get_type_spec(),
    {
        match self {
            Container::Root => ContainerType::Root,
            Container::Output { .. } => ContainerType::Output,
            Container::Workspace { .. } => ContainerType::Workspace,
            Container::Container { .. } => ContainerType::Container,
            Container::View { .. } => ContainerType::View,
        }
    }

    /// The rectangle owned by this container, for the variants that own one.
    pub open spec fn rect_spec(self) -> Option<Rect> {
        match self {
            Container::Root => None,
            Container::Output { .. } => None,
            Container::Workspace { rect, .. } => Some(rect),
            Container::Container { rect, .. } => Some(rect),
            Container::View { rect, .. } => Some(rect),
        }
    }

    pub fn rect(&self) -> (r: Option<Rect>)
        ensures
            r == self.rect_spec(),
    {
        match self {
            Container::Root => None,
            Container::Output { .. } => None,
            Container::Workspace { rect, .. } => Some(*rect),
            Container::Container { rect, .. } => Some(*rect),
            Container::View { rect, .. } => Some(*rect),
        }
    }

    /// The same container with its rectangle replaced; identity fields kept.
    pub open spec fn with_rect_spec(self, r: Rect) -> Container {
        match self {
            Container::Workspace { name, .. } => Container::Workspace { name, rect: r },
            Container::Container { layout, id, .. } => Container::Container { layout, id, rect: r },
            Container::View { handle, id, .. } => Container::View { handle, id, rect: r },
            other => other,
        }
    }

    pub fn with_rect(&self, r: Rect) -> (c: Container)
        ensures
            c == self.with_rect_spec(r),
    {
        match self {
            Container::Workspace { name, .. } => Container::Workspace { name: name.clone(), rect: r },
            Container::Container { layout, id, .. } => Container::Container {
                layout: *layout,
                id: *id,
                rect: r,
            },
            Container::View { handle, id, .. } => Container::View {
                handle: handle.clone(),
                id: *id,
                rect: r,
            },
            Container::Root => Container::Root,
            Container::Output { output_id } => Container::Output { output_id: *output_id },
        }
    }

    /// The numeric identity carried by split containers and views.
    pub open spec fn numeric_id_spec(self) -> Option<u64> {
        match self {
            Container::Container { id, .. } => Some(id),
            Container::View { id, .. } => Some(id),
            _ => None,
        }
    }

    pub fn numeric_id(&self) -> (r: Option<u64>)
        ensures
            r == self.numeric_id_spec(),
    {
        match self {
            Container::Container { id, .. } => Some(*id),
            Container::View { id, .. } => Some(*id),
            _ => None,
        }
    }
}

/// Axes a rectangle can be resized or traversed along.
#[derive(Clone, Copy, Debug, PartialEq, Eq, Structural)]
pub enum Direction {
    Up,
    Down,
    Left,
    Right,
}

impl Direction {
    /// The opposite sense along the same axis.
    pub open spec fn opposite_spec(self) -> Direction {
        match self {
            Direction::Up => Direction::Down,
            Direction::Down => Direction::Up,
            Direction::Left => Direction::Right,
            Direction::Right => Direction::Left,
        }
    }

    pub fn opposite(self) -> (r: Direction)
        ensures
            r == self.opposite_spec(),
    {
        match self {
            Direction::Up => Direction::Down,
            Direction::Down => Direction::Up,
            Direction::Left => Direction::Right,
            Direction::Right => Direction::Left,
        }
    }

    /// Whether this direction runs along the axis split by `layout`.
    pub open spec fn along_spec(self, layout: Layout) -> bool {
        match layout {
            Layout::Horizontal => self == Direction::Left || self == Direction::Right,
            Layout::Vertical => self == Direction::Up || self == Direction::Down,
            _ => false,
        }
    }

    pub fn along(self, layout: Layout) -> (r: bool)
        ensures
            r == self.along_spec(layout),
    {
        match layout {
            Layout::Horizontal => match self {
                Direction::Left | Direction::Right => true,
                _ => false,
            },
            Layout::Vertical => match self {
                Direction::Up | Direction::Down => true,
                _ => false,
            },
            _ => false,
        }
    }

    /// Whether this direction points towards the later siblings of a split
    /// (right in a horizontal split, down in a vertical one).
    pub open spec fn is_forward_spec(self) -> bool {
        self == Direction::Right || self == Direction::Down
    }

    pub fn is_forward(self) -> (r: bool)
        ensures
            r == self.is_forward_spec(),
    {
        match self {
            Direction::Right | Direction::Down => true,
            _ => false,
        }
    }
}

} // verus!
