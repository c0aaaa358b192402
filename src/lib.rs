pub mod bitops;
pub mod softuint;
pub mod softerfloat;
