//! Integer core of a Mandelbrot renderer: the grammar of the command-line
//! pairs, the split of an image into row bands that workers fill on their
//! own, and the grayscale shade given to each escape count.

pub mod bands;
pub mod pair;
pub mod shade;
