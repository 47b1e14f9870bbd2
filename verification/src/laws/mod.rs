//! What holds of the library as a whole: statements about every input, or about several
//! operations together.
pub mod bands;
pub mod brightness;
pub mod colors;
pub mod coord;
pub mod counts;
pub mod directions;
pub mod fading;
pub mod frames;
pub mod lengths;
pub mod luminosity;
pub mod motion;
pub mod nearest;
pub mod node;
pub mod octree;
pub mod order;
pub mod outlines;
pub mod photometry;
pub mod places;
pub mod planes;
pub mod reach;
pub mod render;
pub mod rotations;
pub mod seed;
pub mod shares;
pub mod space;
pub mod steering;
pub mod stellar;
pub mod texts;
pub mod viewer;
pub mod viewport;
pub mod visibility;
