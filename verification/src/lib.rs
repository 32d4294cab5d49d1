//! Stable identifiers for Linux cameras.
//!
//! A camera that exposes a USB serial number is told apart by that number
//! ([`device_serial`]). CSI and MIPI sensors have none, but they are part of a
//! media-controller graph: walking that graph backwards from the video device
//! leads to the sensor, whose entity name holds its I2C bus and address
//! ([`sensor_name`]). Every video device also tells which bus it is attached to
//! ([`device_bus`]).
//!
//! Nothing here touches a device or a file. Each of the three functions takes
//! the replies that have come back so far and says what to ask for next, or
//! gives the result.

pub mod abi;
pub mod bus;
pub mod component;
pub mod devices;
pub mod media;
pub mod name;
pub mod paths;
pub mod sensor;
pub mod serial;
pub mod text;
pub mod walk;

pub use bus::device_bus;
pub use name::sensor_name;
pub use serial::device_serial;
