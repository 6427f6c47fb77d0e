pub mod avail;
pub mod bitmap;
pub mod bits;
pub mod bounds;
pub mod construct;
pub mod engine_v2;
pub mod engine_v3;
pub mod engine_v4;
pub mod fermat;
pub mod known;
pub mod lucas;
pub mod naive;
pub mod positions;
pub mod primality;
pub mod ruler;
pub mod search;
