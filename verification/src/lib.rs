//! Verified core of the Atom01 robot firmware.
//!
//! The modules hold the rules of the firmware: frame layouts, buffers, kinematics,
//! state machines and the decisions taken on measured values. A real number is the
//! bit pattern of an IEEE 754 single precision number, in a `u32`: module
//! [`binary32`] says what such a pattern stands for, and compares patterns; sums
//! and products are computed by a floating-point unit that the caller hands in
//! (module [`arithmetic`]).
//!
//! - `binary32`: order, sign and special values of single precision bit patterns
//! - `arithmetic`: elementary operations on such patterns
//! - `config`: constants of the robot and of the policy
//! - `hal`: traits of the CAN bus, the serial port and the flash chip, with
//!   in-memory implementations in `hal::mock`
//! - `drivers`: hardware drivers behind those traits
//! - `canproto`: layout of the motor command and feedback frames
//! - `ankle`: kinematics of the ankle linkage; its submodules hold the laws on how
//!   accurate it is
//! - `observation`: history of observation frames
//! - `pipeline`: inference step and control step
//! - `shell`: line editor of the USB console
//! - `console`: course of a session on the USB console
//! - `results`: what calls return, in exact arithmetic
//! - `weights`: gate on the weights of the policy
pub mod ankle;
pub mod arithmetic;
pub mod binary32;
pub mod canproto;
pub mod config;
pub mod console;
pub mod drivers;
pub mod hal;
pub mod observation;
pub mod pipeline;
pub mod results;
pub mod shell;
pub mod weights;
