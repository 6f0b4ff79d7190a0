//! What training on a graphics device needs from the host: the decisions of an epoch, the images
//! of a machine in device memory, and how work is cut into dispatches.
pub mod buffers;
pub mod dispatch;
pub mod plan;
pub mod replicas;
pub mod session;
