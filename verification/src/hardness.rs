//! How hard each human strategy is rated; a puzzle is as hard as its hardest step.
use vstd::prelude::*;

verus! {

pub const H_SINGLE: i32 = 3;
pub const H_SURE_CANDIDATES: i32 = 5;
pub const H_LOCKED: i32 = 30;
pub const H_UNIQUE: i32 = 60;
pub const H_SETTI: i32 = 70;
pub const H_SETTI_CONSIDER: i32 = 75;
pub const H_SETTI_SET: i32 = 75;
pub const H_YWING: i32 = 80;
pub const H_BINARY_GUESS: i32 = 90;
pub const H_UNSOLVABLE: i32 = 100;

pub open spec fn stranded_h(k: int) -> int {
    10 + (k - 1) * 2
}

pub open spec fn split_h(k: int) -> int {
    15 + (k - 1) * 2
}

pub open spec fn mindgap_h(k: int) -> int {
    15 + (k - 1) * 2
}

pub open spec fn range_check_h(k: int) -> int {
    20 + (k - 1) * 3
}

pub open spec fn naked_set_h(k: int) -> int {
    20 + (k - 1) * 5
}

pub open spec fn hidden_set_h(k: int) -> int {
    25 + (k - 1) * 5
}

pub open spec fn sea_creature_h(n: int) -> int {
    50 + n * 5
}

pub fn stranded_hardness(k: usize) -> (h: i32)
    requires 1 <= k <= 9,
    ensures h == stranded_h(k as int),
{
    10 + (k as i32 - 1) * 2
}

pub fn split_hardness(k: usize) -> (h: i32)
    requires 1 <= k <= 9,
    ensures h == split_h(k as int),
{
    15 + (k as i32 - 1) * 2
}

pub fn mindgap_hardness(k: usize) -> (h: i32)
    requires 1 <= k <= 9,
    ensures h == mindgap_h(k as int),
{
    15 + (k as i32 - 1) * 2
}

pub fn range_check_hardness(k: usize) -> (h: i32)
    requires 1 <= k <= 9,
    ensures h == range_check_h(k as int),
{
    20 + (k as i32 - 1) * 3
}

pub fn naked_set_hardness(size: usize) -> (h: i32)
    requires 1 <= size <= 9,
    ensures h == naked_set_h(size as int),
{
    20 + (size as i32 - 1) * 5
}

pub fn hidden_set_hardness(size: usize) -> (h: i32)
    requires 1 <= size <= 9,
    ensures h == hidden_set_h(size as int),
{
    25 + (size as i32 - 1) * 5
}

pub fn sea_creature_hardness(n: usize) -> (h: i32)
    requires n <= 9,
    ensures h == sea_creature_h(n as int),
{
    50 + n as i32 * 5
}

} // verus!
