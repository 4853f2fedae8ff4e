pub mod convert;
pub mod csc;
pub mod csc_storage;
pub mod int_storage;
pub mod lane_workspace;
pub mod lanes;
pub mod matmul;

pub use csc_storage::{CoordsMatrix, SLaneAccessor, SMatrix};
pub use int_storage::IdxStorage;
pub use lane_workspace::{BoolWorkspace, DLaneWorkspace};
pub use matmul::{add_ax, mat_mul, MatMulError};
