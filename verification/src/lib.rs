//! A tick-driven propagation engine for DC circuits laid out on a grid.
//!
//! Wires, switch contacts, relay coils, lamps and two power terminals sit on
//! integer grid positions. Each tick the engine derives the conducting
//! elements from the latched actuator state, builds the graph they form,
//! floods it from the positive and then from the negative terminal, and
//! decides from the two floods which lamps light and which coils energise.
//!
//! - [`grid`] and [`devices`] hold what is placed on the grid.
//! - [`graph`] says what it means for two positions to be connected.
//! - [`topology`] builds the indexed graph, [`walker`] floods it, and
//!   [`power`] shows that the two floods of a tick mark exactly what is
//!   connected to each terminal.
//! - [`resolver`] turns marks into lamp and coil states.
//! - [`engine`] is the tick itself, [`laws`] what holds of every tick.
//! - [`placement`] holds the rules of the editor.

pub mod devices;
pub mod engine;
pub mod graph;
pub mod grid;
pub mod laws;
pub mod placement;
pub mod power;
pub mod resolver;
pub mod topology;
pub mod walker;

pub use devices::{
    ButtonLatch, ConfigError, Lamp, PowerSource, RelayCoil, SwitchDevice, SwitchKind, Terminals,
};
pub use engine::{Circuit, TickReport};
pub use grid::{GridPosition, Wire};
pub use resolver::Resolution;
pub use topology::{Mark, Node, Polarity, Topology};
pub use walker::ShortCircuit;
