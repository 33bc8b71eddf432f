//! Convert an electronic schematic's netlist into a gate-level Verilog
//! module, guided by a small per-project configuration that says how to
//! treat each component: drop it, expose it as a module boundary, or
//! instantiate it as a named primitive with an explicit pin-to-port
//! mapping. The whole transformation pipeline is verified: rule matching,
//! netlist cleanup, pull-up and pull-down inference, boundary-direction
//! resolution, and exact-text emission.
pub mod config;
pub mod laws;
pub mod netlist;
pub mod passes;
pub mod strutil;
pub mod verilog;

pub use config::Config;
pub use config::Error;
pub use config::PartPattern;
pub use config::PartRule;
pub use netlist::Component;
pub use netlist::Net;
pub use netlist::NetList;
pub use netlist::Node;
pub use netlist::Pin;
pub use netlist::PinType;
pub use passes::add_pullups_and_pulldowns;
pub use passes::remove_decoupling_caps;
pub use passes::remove_pinless_components;
pub use passes::remove_skipped_components;
pub use verilog::collect_comps;
pub use verilog::collect_mod_ports;
pub use verilog::make_verilog_name;
pub use verilog::write_verilog;
pub use verilog::Comp;
pub use verilog::ModPort;
