pub mod general_data_types;
pub mod signal_remap_info;
pub mod signal_filters;
