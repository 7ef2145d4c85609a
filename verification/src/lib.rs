pub mod display;
pub mod invoice;
pub mod menu_item;
pub mod utilities;
