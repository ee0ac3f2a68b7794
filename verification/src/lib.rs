//! Finding faces in the frames of a camera with the YuNet network, and streaming the frames.

pub mod accuracy;
pub mod binary32;
pub mod decode;
pub mod faces;
pub mod geometry;
pub mod mjpeg;
pub mod nms;
pub mod overlay;
pub mod placement;
pub mod preprocess;
pub mod priors;
pub mod rearrangement;
pub mod rounding;
pub mod selection;
pub mod session;
pub mod tensor;
