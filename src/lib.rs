/// Ranking of catapult shots at targets and meteors.
pub mod catapult;
/// Points of the plane with integer coordinates.
pub mod coord;
/// Least-cost search over a grid of heights on a ten-position dial.
pub mod dial_search;
/// Breadth-first search from several cells at once toward a number of targets.
pub mod flood;
/// Rectangular character grids and the facts about them that the searches share.
pub mod grid;
/// Wires of unit segments in space, and breadth-first searches over them.
pub mod wire;
