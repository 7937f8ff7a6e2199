//! Transform strategies and the blocks they cover.

use vstd::prelude::*;

verus! {

/// Strategy codes are the wire values of the codestream.
pub const STRATEGY_DCT: u8 = 0;

pub const STRATEGY_IDENTITY: u8 = 1;

pub const STRATEGY_DCT2X2: u8 = 2;

pub const STRATEGY_DCT4X4: u8 = 3;

pub const STRATEGY_DCT16X16: u8 = 4;

pub const STRATEGY_DCT32X32: u8 = 5;

/// Sixteen pixels tall and eight wide.
pub const STRATEGY_DCT16X8: u8 = 6;

/// Eight pixels tall and sixteen wide.
pub const STRATEGY_DCT8X16: u8 = 7;

pub const STRATEGY_DCT32X8: u8 = 8;

pub const STRATEGY_DCT8X32: u8 = 9;

/// Thirty-two pixels tall and sixteen wide.
pub const STRATEGY_DCT32X16: u8 = 10;

/// Sixteen pixels tall and thirty-two wide.
pub const STRATEGY_DCT16X32: u8 = 11;

pub const STRATEGY_DCT4X8: u8 = 12;

pub const STRATEGY_DCT8X4: u8 = 13;

pub const STRATEGY_AFV0: u8 = 14;

pub const STRATEGY_AFV1: u8 = 15;

pub const STRATEGY_AFV2: u8 = 16;

pub const STRATEGY_AFV3: u8 = 17;

pub const STRATEGY_DCT64X64: u8 = 18;

/// Sixty-four pixels tall and thirty-two wide.
pub const STRATEGY_DCT64X32: u8 = 19;

/// Thirty-two pixels tall and sixty-four wide.
pub const STRATEGY_DCT32X64: u8 = 20;

/// Strategy codes that the encoder knows are below this number.
pub const NUM_STRATEGIES: usize = 21;

/// Marks a cell of a child grid that an earlier first block covers.
pub const NO_CHILD_BLOCK: u8 = 0xFF;

/// Width of a strategy's footprint in 8x8 blocks.
pub open spec fn covered_x(strategy: u8) -> int {
    if strategy == STRATEGY_DCT64X64 || strategy == STRATEGY_DCT32X64 {
        8
    } else if strategy == STRATEGY_DCT32X32 || strategy == STRATEGY_DCT8X32 || strategy
        == STRATEGY_DCT16X32 || strategy == STRATEGY_DCT64X32 {
        4
    } else if strategy == STRATEGY_DCT16X16 || strategy == STRATEGY_DCT8X16 || strategy
        == STRATEGY_DCT32X16 {
        2
    } else {
        1
    }
}

/// Height of a strategy's footprint in 8x8 blocks.
pub open spec fn covered_y(strategy: u8) -> int {
    if strategy == STRATEGY_DCT64X64 || strategy == STRATEGY_DCT64X32 {
        8
    } else if strategy == STRATEGY_DCT32X32 || strategy == STRATEGY_DCT32X8 || strategy
        == STRATEGY_DCT32X16 || strategy == STRATEGY_DCT32X64 {
        4
    } else if strategy == STRATEGY_DCT16X16 || strategy == STRATEGY_DCT16X8 || strategy
        == STRATEGY_DCT16X32 {
        2
    } else {
        1
    }
}

/// The 64-pixel family, which is selected and scored apart from the rest.
pub open spec fn is_dct64_family(strategy: u8) -> bool {
    strategy == STRATEGY_DCT64X64 || strategy == STRATEGY_DCT64X32 || strategy == STRATEGY_DCT32X64
}

/// Whether a strategy belongs to the 64-pixel family.
pub fn in_dct64_family(strategy: u8) -> (r: bool)
    ensures
        r == is_dct64_family(strategy),
{
    strategy == STRATEGY_DCT64X64 || strategy == STRATEGY_DCT64X32 || strategy == STRATEGY_DCT32X64
}

/// Width of a strategy's footprint in 8x8 blocks.
pub fn covered_blocks_x_of(strategy: u8) -> (r: usize)
    ensures
        r == covered_x(strategy),
        1 <= r <= 8,
{
    match strategy {
        STRATEGY_DCT64X64 | STRATEGY_DCT32X64 => 8,
        STRATEGY_DCT32X32 | STRATEGY_DCT8X32 | STRATEGY_DCT16X32 | STRATEGY_DCT64X32 => 4,
        STRATEGY_DCT16X16 | STRATEGY_DCT8X16 | STRATEGY_DCT32X16 => 2,
        _ => 1,
    }
}

/// Height of a strategy's footprint in 8x8 blocks.
pub fn covered_blocks_y_of(strategy: u8) -> (r: usize)
    ensures
        r == covered_y(strategy),
        1 <= r <= 8,
{
    match strategy {
        STRATEGY_DCT64X64 | STRATEGY_DCT64X32 => 8,
        STRATEGY_DCT32X32 | STRATEGY_DCT32X8 | STRATEGY_DCT32X16 | STRATEGY_DCT32X64 => 4,
        STRATEGY_DCT16X16 | STRATEGY_DCT16X8 | STRATEGY_DCT16X32 => 2,
        _ => 1,
    }
}

} // verus!
