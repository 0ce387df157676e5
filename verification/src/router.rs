pub mod history;
pub mod location;
pub mod matches;
pub mod params;
pub mod pattern;
pub mod table;
pub mod normal_form;
