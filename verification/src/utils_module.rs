pub mod io_utils;
pub mod parse_utils;
pub mod time_utils;
