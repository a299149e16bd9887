pub mod bit_vec;
pub mod cardinality;
pub mod bitset;
pub mod bloom;
pub mod cms;
pub mod hash;
pub mod hll;
pub mod linear_count;
pub mod random;
pub mod set_membership;

pub use bit_vec::BitVec;
pub use bit_vec::UnboundedShift;
