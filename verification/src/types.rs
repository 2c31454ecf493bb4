use vstd::prelude::*;

verus! {

/// Number of rows of the mushroom board.
pub const ROWS: usize = 10;

/// Number of columns of the mushroom board.
pub const COLS: usize = 17;

/// Owner mark of the player who moves first.
pub const FIRST_PLAYER: i8 = 1;

/// Owner mark of the player who moves second.
pub const SECOND_PLAYER: i8 = -1;

/// Owner mark of a cell that nobody has claimed.
pub const NO_OWNER: i8 = 0;

/// Mushroom values, one per cell (0 means the cell is empty).
pub type ValueGrid = [[i8; COLS]; ROWS];

/// Owner marks, one per cell.
pub type OwnerGrid = [[i8; COLS]; ROWS];

/// Per-cell quality table.
pub type MQualityGrid = [[i8; COLS]; ROWS];

/// Weights of the geometric features.
#[derive(Clone, Copy, Debug, Default)]
pub struct GeometryConfig {
    pub corner_weight: i16,
    pub edge_weight: i16,
    pub center_weight: i16,
    pub connectivity_weight: i16,
    pub steal_weight: i16,
    pub barrier_weight: i16,
    pub compact_bonus: i16,
    pub risk_penalty: i16,
}

/// Shape of a rectangle, by height and width.
#[derive(Clone, Copy, Debug, PartialEq, Eq, Structural)]
pub enum ShapeClass {
    Rect1x2,
    Rect2x1,
    Rect1x3,
    Rect3x1,
    Rect2x2,
    Rect1x4,
    Rect4x1,
    RectOther,
}

impl ShapeClass {
    /// Position of the variant in the declaration (its discriminant).
    pub open spec fn spec_index(self) -> int {
        match self {
            ShapeClass::Rect1x2 => 0,
            ShapeClass::Rect2x1 => 1,
            ShapeClass::Rect1x3 => 2,
            ShapeClass::Rect3x1 => 3,
            ShapeClass::Rect2x2 => 4,
            ShapeClass::Rect1x4 => 5,
            ShapeClass::Rect4x1 => 6,
            ShapeClass::RectOther => 7,
        }
    }

    /// Position of the variant in the declaration (its discriminant).
    pub fn index(self) -> (i: usize)
        ensures
            i == self.spec_index(),
            i < 8,
    {
        match self {
            ShapeClass::Rect1x2 => 0,
            ShapeClass::Rect2x1 => 1,
            ShapeClass::Rect1x3 => 2,
            ShapeClass::Rect3x1 => 3,
            ShapeClass::Rect2x2 => 4,
            ShapeClass::Rect1x4 => 5,
            ShapeClass::Rect4x1 => 6,
            ShapeClass::RectOther => 7,
        }
    }
}

/// Orientation of a rectangle.
#[derive(Clone, Copy, Debug, PartialEq, Eq, Structural)]
pub enum Orientation {
    Square,
    Portrait,
    Landscape,
}

/// Region of the board a rectangle lies in.
#[derive(Clone, Copy, Debug, PartialEq, Eq, Structural)]
pub enum RegionTag {
    Corner,
    Edge,
    CenterOuter,
    CenterInner,
    NoRegion,
}

impl RegionTag {
    /// Position of the variant in the declaration (its discriminant).
    pub open spec fn spec_index(self) -> int {
        match self {
            RegionTag::Corner => 0,
            RegionTag::Edge => 1,
            RegionTag::CenterOuter => 2,
            RegionTag::CenterInner => 3,
            RegionTag::NoRegion => 4,
        }
    }

    /// Position of the variant in the declaration (its discriminant).
    pub fn index(self) -> (i: usize)
        ensures
            i == self.spec_index(),
    {
        match self {
            RegionTag::Corner => 0,
            RegionTag::Edge => 1,
            RegionTag::CenterOuter => 2,
            RegionTag::CenterInner => 3,
            RegionTag::NoRegion => 4,
        }
    }
}

/// Known opponent styles; the declaration order gives the style ids 0 to 5.
#[derive(Clone, Copy, Debug, PartialEq, Eq, Structural)]
pub enum KnownStyle {
    Unknown,
    CordycepsAttack,
    CordycepsDefense,
    CordycepsBalanced,
    RustOld,
    RustUpdate,
}

impl KnownStyle {
    /// The style whose id is `id` (ids outside 1..=5 mean `Unknown`).
    pub open spec fn spec_from_id(id: u32) -> KnownStyle {
        if id == 1 {
            KnownStyle::CordycepsAttack
        } else if id == 2 {
            KnownStyle::CordycepsDefense
        } else if id == 3 {
            KnownStyle::CordycepsBalanced
        } else if id == 4 {
            KnownStyle::RustOld
        } else if id == 5 {
            KnownStyle::RustUpdate
        } else {
            KnownStyle::Unknown
        }
    }

    /// The id of a style (its position in the declaration).
    pub open spec fn spec_id(self) -> u32 {
        match self {
            KnownStyle::Unknown => 0,
            KnownStyle::CordycepsAttack => 1,
            KnownStyle::CordycepsDefense => 2,
            KnownStyle::CordycepsBalanced => 3,
            KnownStyle::RustOld => 4,
            KnownStyle::RustUpdate => 5,
        }
    }

    /// Maps a stored style id to the style.
    pub fn from_id(id: u32) -> (s: KnownStyle)
        ensures
            s == Self::spec_from_id(id),
    {
        match id {
            1 => KnownStyle::CordycepsAttack,
            2 => KnownStyle::CordycepsDefense,
            3 => KnownStyle::CordycepsBalanced,
            4 => KnownStyle::RustOld,
            5 => KnownStyle::RustUpdate,
            _ => KnownStyle::Unknown,
        }
    }

    /// The id of a style.
    pub fn id(self) -> (id: u32)
        ensures
            id == self.spec_id(),
            Self::spec_from_id(id) == self,
    {
        match self {
            KnownStyle::Unknown => 0,
            KnownStyle::CordycepsAttack => 1,
            KnownStyle::CordycepsDefense => 2,
            KnownStyle::CordycepsBalanced => 3,
            KnownStyle::RustOld => 4,
            KnownStyle::RustUpdate => 5,
        }
    }
}

/// Adjustments that a prior configuration applies to move priorities.
#[derive(Clone, Copy, Debug, Default)]
pub struct MovePriorConfig {
    pub shape_boost: [i16; 8],
    pub medium_rect_boost: i16,
    pub barrier_boost: i16,
    pub connection_boost: i16,
    pub dead_cell_risk_penalty: i16,
    pub side_boost_first: i16,
    pub side_boost_second: i16,
    pub max_total_adjustment: u16,
    pub confidence_min: u8,
}

impl MovePriorConfig {
    /// The configuration that adjusts nothing, capped at 3000, with confidence 60.
    pub open spec fn spec_new_default() -> MovePriorConfig {
        MovePriorConfig {
            shape_boost: vstd::array::spec_array_fill_for_copy_type::<i16, 8>(0i16),
            medium_rect_boost: 0,
            barrier_boost: 0,
            connection_boost: 0,
            dead_cell_risk_penalty: 0,
            side_boost_first: 0,
            side_boost_second: 0,
            max_total_adjustment: 3000,
            confidence_min: 60,
        }
    }

    /// A configuration that adjusts nothing, capped at 3000, with confidence 60.
    pub fn new_default() -> (cfg: Self)
        ensures
            cfg == Self::spec_new_default(),
            forall|i: int| 0 <= i < 8 ==> cfg.shape_boost[i] == 0,
            cfg.medium_rect_boost == 0,
            cfg.barrier_boost == 0,
            cfg.connection_boost == 0,
            cfg.dead_cell_risk_penalty == 0,
            cfg.side_boost_first == 0,
            cfg.side_boost_second == 0,
            cfg.max_total_adjustment == 3000,
            cfg.confidence_min == 60,
    {
        let cfg = MovePriorConfig {
            shape_boost: [0; 8],
            medium_rect_boost: 0,
            barrier_boost: 0,
            connection_boost: 0,
            dead_cell_risk_penalty: 0,
            side_boost_first: 0,
            side_boost_second: 0,
            max_total_adjustment: 3000,
            confidence_min: 60,
        };
        proof {
            assert(cfg.shape_boost =~= vstd::array::spec_array_fill_for_copy_type::<i16, 8>(0i16));
        }
        cfg
    }

    /// A field-by-field copy.
    pub fn duplicate(&self) -> (cfg: Self)
        ensures
            cfg == *self,
    {
        MovePriorConfig {
            shape_boost: self.shape_boost,
            medium_rect_boost: self.medium_rect_boost,
            barrier_boost: self.barrier_boost,
            connection_boost: self.connection_boost,
            dead_cell_risk_penalty: self.dead_cell_risk_penalty,
            side_boost_first: self.side_boost_first,
            side_boost_second: self.side_boost_second,
            max_total_adjustment: self.max_total_adjustment,
            confidence_min: self.confidence_min,
        }
    }
}

/// Eight features of an opponent, scaled by 128.
#[derive(Clone, Copy, Debug, Default)]
pub struct FeatureVector8 {
    pub dim: [i16; 8],
}

/// A rectangle `(r1, c1)`-`(r2, c2)` with a search priority; all four corners -1 mean a pass.
#[derive(Clone, Copy, Debug, PartialEq, Eq, Structural, Default)]
pub struct Move {
    pub r1: i32,
    pub c1: i32,
    pub r2: i32,
    pub c2: i32,
    pub priority: i32,
}

/// The pass move.
pub open spec fn pass_move() -> Move {
    Move { r1: -1i32, c1: -1i32, r2: -1i32, c2: -1i32, priority: 0i32 }
}

impl Move {
    /// Whether all four coordinates are -1.
    pub open spec fn spec_is_pass(self) -> bool {
        self.r1 == -1 && self.c1 == -1 && self.r2 == -1 && self.c2 == -1
    }

    /// Whether two moves name the same rectangle (priorities aside).
    pub open spec fn same_coords(self, other: Move) -> bool {
        self.r1 == other.r1 && self.c1 == other.c1 && self.r2 == other.r2 && self.c2 == other.c2
    }

    /// The pass move.
    pub fn pass() -> (m: Self)
        ensures
            m == pass_move(),
            m.spec_is_pass(),
    {
        Move { r1: -1, c1: -1, r2: -1, c2: -1, priority: 0 }
    }

    /// Whether this move is a pass.
    pub fn is_pass(&self) -> (b: bool)
        ensures
            b == self.spec_is_pass(),
    {
        self.r1 == -1 && self.c1 == -1 && self.r2 == -1 && self.c2 == -1
    }

    /// Whether both moves name the same rectangle.
    pub fn coords_eq(&self, other: &Move) -> (b: bool)
        ensures
            b == self.same_coords(*other),
    {
        self.r1 == other.r1 && self.c1 == other.c1 && self.r2 == other.r2 && self.c2 == other.c2
    }
}

/// The other player: the mark negated.
pub open spec fn spec_opponent(player: i8) -> int {
    -player
}

/// The other player: the mark negated.
pub fn opponent(player: i8) -> (o: i8)
    requires
        player != i8::MIN,
    ensures
        o == spec_opponent(player),
{
    -player
}

/// Shape class of a rectangle by its height and width.
pub open spec fn spec_classify_shape(r1: int, c1: int, r2: int, c2: int) -> ShapeClass {
    let h = r2 - r1 + 1;
    let w = c2 - c1 + 1;
    if h == 1 && w == 2 {
        ShapeClass::Rect1x2
    } else if h == 2 && w == 1 {
        ShapeClass::Rect2x1
    } else if h == 1 && w == 3 {
        ShapeClass::Rect1x3
    } else if h == 3 && w == 1 {
        ShapeClass::Rect3x1
    } else if h == 2 && w == 2 {
        ShapeClass::Rect2x2
    } else if h == 1 && w == 4 {
        ShapeClass::Rect1x4
    } else if h == 4 && w == 1 {
        ShapeClass::Rect4x1
    } else {
        ShapeClass::RectOther
    }
}

/// The height and the width that a shape class names (`RectHxW` is H rows high and W columns
/// wide); `(0, 0)` for the class of all other shapes.
pub open spec fn shape_dims(s: ShapeClass) -> (int, int) {
    match s {
        ShapeClass::Rect1x2 => (1, 2),
        ShapeClass::Rect2x1 => (2, 1),
        ShapeClass::Rect1x3 => (1, 3),
        ShapeClass::Rect3x1 => (3, 1),
        ShapeClass::Rect2x2 => (2, 2),
        ShapeClass::Rect1x4 => (1, 4),
        ShapeClass::Rect4x1 => (4, 1),
        ShapeClass::RectOther => (0, 0),
    }
}

/// A rectangle's class names its height by its width: a rectangle of `h` rows and `w` columns
/// gets the class whose name is `hxw` when there is one (1x2, 2x1, 1x3, 3x1, 2x2, 1x4, 4x1), and
/// the class of other shapes otherwise.
pub proof fn lemma_shape_class_names_height_by_width(r1: int, c1: int, r2: int, c2: int)
    ensures
        ({
            let h = r2 - r1 + 1;
            let w = c2 - c1 + 1;
            let named = (h == 1 && w == 2) || (h == 2 && w == 1) || (h == 1 && w == 3) || (h == 3 && w == 1) || (h == 2
                && w == 2) || (h == 1 && w == 4) || (h == 4 && w == 1);
            &&& named ==> shape_dims(spec_classify_shape(r1, c1, r2, c2)) == (h, w)
            &&& !named ==> spec_classify_shape(r1, c1, r2, c2) == ShapeClass::RectOther
        }),
{
}

/// `b - a + 1` (a height or a width) can be computed in 32 bits.
pub open spec fn extent_fits(a: i32, b: i32) -> bool {
    i32::MIN <= b - a && b - a + 1 <= i32::MAX
}

/// `a + b` can be computed in 32 bits.
pub open spec fn sum_fits(a: i32, b: i32) -> bool {
    i32::MIN <= a + b <= i32::MAX
}

/// The height and the width of the rectangle can be computed in 32 bits.
pub open spec fn extents_fit(r1: i32, c1: i32, r2: i32, c2: i32) -> bool {
    extent_fits(r1, r2) && extent_fits(c1, c2)
}

/// The rectangle lies near a corner of the board.
pub open spec fn spec_near_corner(r1: int, c1: int, r2: int, c2: int) -> bool {
    (r1 <= 1 && c1 <= 1) || (r1 <= 1 && c2 >= COLS - 2) || (r2 >= ROWS - 2 && c1 <= 1) || (r2 >= ROWS - 2 && c2
        >= COLS - 2)
}

/// The rectangle touches an edge of the board.
pub open spec fn spec_near_edge(r1: int, c1: int, r2: int, c2: int) -> bool {
    r1 == 0 || r2 == ROWS - 1 || c1 == 0 || c2 == COLS - 1
}

/// The midpoint sums that `classify_region` computes (only for a rectangle neither near a
/// corner nor on an edge) fit in 32 bits.
pub open spec fn region_fits(r1: i32, c1: i32, r2: i32, c2: i32) -> bool {
    (!spec_near_corner(r1 as int, c1 as int, r2 as int, c2 as int) && !spec_near_edge(
        r1 as int,
        c1 as int,
        r2 as int,
        c2 as int,
    )) ==> sum_fits(r1, r2) && sum_fits(c1, c2)
}

/// The height, the width and the area of the rectangle can be computed in 32 bits.
pub open spec fn area_fits(r1: i32, c1: i32, r2: i32, c2: i32) -> bool {
    extents_fit(r1, c1, r2, c2) && i32::MIN <= spec_move_area(r1 as int, c1 as int, r2 as int, c2 as int)
        <= i32::MAX
}

/// Shape class of a rectangle by its height and width.
pub fn classify_shape(r1: i32, c1: i32, r2: i32, c2: i32) -> (s: ShapeClass)
    requires
        extents_fit(r1, c1, r2, c2),
    ensures
        s == spec_classify_shape(r1 as int, c1 as int, r2 as int, c2 as int),
{
    let h = r2 - r1 + 1;
    let w = c2 - c1 + 1;
    if h == 1 && w == 2 {
        ShapeClass::Rect1x2
    } else if h == 2 && w == 1 {
        ShapeClass::Rect2x1
    } else if h == 1 && w == 3 {
        ShapeClass::Rect1x3
    } else if h == 3 && w == 1 {
        ShapeClass::Rect3x1
    } else if h == 2 && w == 2 {
        ShapeClass::Rect2x2
    } else if h == 1 && w == 4 {
        ShapeClass::Rect1x4
    } else if h == 4 && w == 1 {
        ShapeClass::Rect4x1
    } else {
        ShapeClass::RectOther
    }
}

/// Orientation of a rectangle: square, taller than wide, or wider than tall.
pub open spec fn spec_classify_orientation(r1: int, c1: int, r2: int, c2: int) -> Orientation {
    let h = r2 - r1 + 1;
    let w = c2 - c1 + 1;
    if h == w {
        Orientation::Square
    } else if h > w {
        Orientation::Portrait
    } else {
        Orientation::Landscape
    }
}

/// Orientation of a rectangle: square, taller than wide, or wider than tall.
pub fn classify_orientation(r1: i32, c1: i32, r2: i32, c2: i32) -> (o: Orientation)
    requires
        extents_fit(r1, c1, r2, c2),
    ensures
        o == spec_classify_orientation(r1 as int, c1 as int, r2 as int, c2 as int),
{
    let h = r2 - r1 + 1;
    let w = c2 - c1 + 1;
    if h == w {
        Orientation::Square
    } else if h > w {
        Orientation::Portrait
    } else {
        Orientation::Landscape
    }
}

/// Integer division rounding toward zero, as Rust's `/` on signed integers.
pub open spec fn div_trunc(a: int, b: int) -> int
    recommends
        b > 0,
{
    if a >= 0 {
        a / b
    } else {
        -((-a) / b)
    }
}

/// Region of a rectangle: near a corner, touching an edge, or inner / outer centre by its midpoint.
pub open spec fn spec_classify_region(r1: int, c1: int, r2: int, c2: int) -> RegionTag {
    let near_corner = (r1 <= 1 && c1 <= 1) || (r1 <= 1 && c2 >= COLS - 2) || (r2 >= ROWS - 2 && c1
        <= 1) || (r2 >= ROWS - 2 && c2 >= COLS - 2);
    let near_edge = r1 == 0 || r2 == ROWS - 1 || c1 == 0 || c2 == COLS - 1;
    let cr = div_trunc(r1 + r2, 2);
    let cc = div_trunc(c1 + c2, 2);
    if near_corner {
        RegionTag::Corner
    } else if near_edge {
        RegionTag::Edge
    } else if 3 <= cr <= 6 && 5 <= cc <= 11 {
        RegionTag::CenterInner
    } else {
        RegionTag::CenterOuter
    }
}

/// Region of a rectangle: near a corner, touching an edge, or inner / outer centre by its midpoint.
pub fn classify_region(r1: i32, c1: i32, r2: i32, c2: i32) -> (t: RegionTag)
    requires
        region_fits(r1, c1, r2, c2),
    ensures
        t == spec_classify_region(r1 as int, c1 as int, r2 as int, c2 as int),
        t != RegionTag::NoRegion,
{
    let rows: i32 = 10;
    let cols: i32 = 17;
    let near_corner = (r1 <= 1 && c1 <= 1) || (r1 <= 1 && c2 >= cols - 2) || (r2 >= rows - 2 && c1
        <= 1) || (r2 >= rows - 2 && c2 >= cols - 2);
    if near_corner {
        return RegionTag::Corner;
    }
    let near_edge = r1 == 0 || r2 == rows - 1 || c1 == 0 || c2 == cols - 1;
    if near_edge {
        return RegionTag::Edge;
    }
    let cr = (r1 + r2) / 2;
    let cc = (c1 + c2) / 2;
    assert(cr == div_trunc(r1 + r2, 2));
    assert(cc == div_trunc(c1 + c2, 2));
    if cr >= 3 && cr <= 6 && cc >= 5 && cc <= 11 {
        RegionTag::CenterInner
    } else {
        RegionTag::CenterOuter
    }
}

/// Number of cells of a rectangle: height times width.
pub open spec fn spec_move_area(r1: int, c1: int, r2: int, c2: int) -> int {
    (r2 - r1 + 1) * (c2 - c1 + 1)
}

/// Number of cells of a rectangle: height times width.
pub fn move_area(r1: i32, c1: i32, r2: i32, c2: i32) -> (a: i32)
    requires
        area_fits(r1, c1, r2, c2),
    ensures
        a == spec_move_area(r1 as int, c1 as int, r2 as int, c2 as int),
{
    let h = r2 - r1 + 1;
    let w = c2 - c1 + 1;
    h * w
}

} // verus!
