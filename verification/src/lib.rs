//! Layout planning and slot metadata for multi-slot GPT disks.
//!
//! The library decides; it reads no disk and writes none. Partition tables,
//! device listings and region contents come in as plain values, and what is
//! to be written goes out as plain values.

pub mod applier;
pub mod backup_factory;
pub mod bootctrl;
pub mod cloner;
pub mod config;
pub mod constants;
pub mod devices;
pub mod gpt_helper;
pub mod math_support;
pub mod metadata;
pub mod names;
pub mod planner;
pub mod record;
pub mod units;

pub use crate::applier::{
    init_partition_table_layout, try_init_partition_table_layout, try_init_userdata_partition,
};
pub use crate::cloner::clone_firmware;
pub use crate::config::{
    check_slots_config, dump_current_metadata, generate_template_init_config_file, list_slots,
    show_current_slot, update_config_to_all_slots,
};
