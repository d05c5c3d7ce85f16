//! A small library of self-contained numeric and array algorithms:
//! Fibonacci numbers (iterative and recursive), two comparison sorts
//! (bubble sort and quicksort), a 3x3 box-blur image filter, and a
//! prime sieve. Every function is pure: it reads its arguments and
//! returns a freshly computed result.

pub mod blur;
pub mod fib;
pub mod sieve;
pub mod sort;

pub use blur::image_blur;
pub use fib::fibonacci;
pub use fib::fibonacci_recursive;
pub use sieve::prime_sieve;
pub use sort::bubble_sort;
pub use sort::quick_sort;
