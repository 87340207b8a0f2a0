//! The blocks that highway features are built from.

use crate::tags::Tags;
use vstd::prelude::*;

verus! {

/// A kind of block. Kinds that highways never place go by number.
#[derive(Clone, Copy, Debug, PartialEq, Eq, Structural)]
pub enum Block {
    BlackConcrete,
    BlackWool,
    CobblestoneWall,
    CyanTerracotta,
    DarkOakDoorLower,
    DarkOakDoorUpper,
    DirtPath,
    Glowstone,
    GrayConcrete,
    GrayConcretePowder,
    IronBars,
    LightGrayConcrete,
    LightGrayWallBanner,
    OakFence,
    Sand,
    SmoothStone,
    Stone,
    StoneBrickSlab,
    StoneBricks,
    WhiteConcrete,
    WhiteWool,
    Other(u16),
}

/// A block in a given state.
#[derive(Debug, PartialEq)]
pub struct BlockWithProperties {
    pub block: Block,
    /// The properties of the state; none for the default state.
    pub properties: Option<Tags>,
}

impl BlockWithProperties {
    /// A block in its default state.
    pub fn simple(block: Block) -> (r: BlockWithProperties)
        ensures
            r == (BlockWithProperties { block, properties: None }),
    {
        BlockWithProperties { block, properties: None }
    }
}

/// The side that a wall banner looks to.
#[derive(Clone, Copy, Debug, PartialEq, Eq, Structural)]
pub enum Facing {
    North,
    South,
    West,
    East,
}

impl Facing {
    /// The name of the side.
    pub open spec fn text(self) -> Seq<char> {
        match self {
            Facing::North => "north"@,
            Facing::South => "south"@,
            Facing::West => "west"@,
            Facing::East => "east"@,
        }
    }

    /// The name of the side.
    pub fn name(self) -> (r: &'static str)
        ensures
            r@ == self.text(),
    {
        match self {
            Facing::North => "north",
            Facing::South => "south",
            Facing::West => "west",
            Facing::East => "east",
        }
    }
}

/// A colour of banners and their patterns.
#[derive(Clone, Copy, Debug, PartialEq, Eq, Structural)]
pub enum DyeColor {
    Red,
    Lime,
    Yellow,
    Black,
    LightGray,
}

impl DyeColor {
    /// The name of the colour.
    pub open spec fn text(self) -> Seq<char> {
        match self {
            DyeColor::Red => "red"@,
            DyeColor::Lime => "lime"@,
            DyeColor::Yellow => "yellow"@,
            DyeColor::Black => "black"@,
            DyeColor::LightGray => "light_gray"@,
        }
    }

    /// The name of the colour.
    pub fn name(self) -> (r: &'static str)
        ensures
            r@ == self.text(),
    {
        match self {
            DyeColor::Red => "red",
            DyeColor::Lime => "lime",
            DyeColor::Yellow => "yellow",
            DyeColor::Black => "black",
            DyeColor::LightGray => "light_gray",
        }
    }
}

/// A shape that a banner pattern draws.
#[derive(Clone, Copy, Debug, PartialEq, Eq, Structural)]
pub enum BannerShape {
    TriangleTop,
    TriangleBottom,
    Circle,
    CurlyBorder,
    Border,
}

impl BannerShape {
    /// The identifier of the pattern.
    pub open spec fn text(self) -> Seq<char> {
        match self {
            BannerShape::TriangleTop => "minecraft:triangle_top"@,
            BannerShape::TriangleBottom => "minecraft:triangle_bottom"@,
            BannerShape::Circle => "minecraft:circle"@,
            BannerShape::CurlyBorder => "minecraft:curly_border"@,
            BannerShape::Border => "minecraft:border"@,
        }
    }

    /// The identifier of the pattern.
    pub fn id(self) -> (r: &'static str)
        ensures
            r@ == self.text(),
    {
        match self {
            BannerShape::TriangleTop => "minecraft:triangle_top",
            BannerShape::TriangleBottom => "minecraft:triangle_bottom",
            BannerShape::Circle => "minecraft:circle",
            BannerShape::CurlyBorder => "minecraft:curly_border",
            BannerShape::Border => "minecraft:border",
        }
    }
}

/// What is drawn on a banner.
#[derive(Clone, Copy, Debug, PartialEq, Eq, Structural)]
pub enum BannerDesign {
    /// The three lights of a traffic signal in a dark case.
    TrafficSignal,
}

impl BannerDesign {
    /// The patterns of the design, in the order in which they are drawn.
    pub open spec fn layers(self) -> Seq<(DyeColor, BannerShape)> {
        match self {
            BannerDesign::TrafficSignal => seq![
                (DyeColor::Red, BannerShape::TriangleTop),
                (DyeColor::Lime, BannerShape::TriangleBottom),
                (DyeColor::Yellow, BannerShape::Circle),
                (DyeColor::Black, BannerShape::CurlyBorder),
                (DyeColor::Black, BannerShape::Border),
            ],
        }
    }

    /// The patterns of the design, in the order in which they are drawn.
    pub fn patterns(self) -> (r: Vec<(DyeColor, BannerShape)>)
        ensures
            r@ == self.layers(),
    {
        let r: Vec<(DyeColor, BannerShape)> = match self {
            BannerDesign::TrafficSignal => vec![
                (DyeColor::Red, BannerShape::TriangleTop),
                (DyeColor::Lime, BannerShape::TriangleBottom),
                (DyeColor::Yellow, BannerShape::Circle),
                (DyeColor::Black, BannerShape::CurlyBorder),
                (DyeColor::Black, BannerShape::Border),
            ],
        };
        assert(r@ =~= self.layers());
        r
    }
}

} // verus!
