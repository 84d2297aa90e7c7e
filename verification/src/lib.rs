//! Verified core of the Sundial settings editor for Project Sunrise.
pub mod item_editor;
pub mod text;
pub mod json_text;
pub mod fold_edit;
pub mod fold_search;
pub mod inventory;
pub mod equipment;
pub mod inventory_page;
pub mod settings;
pub mod json;
pub mod characters;
pub mod encode;
pub mod json_layout;
pub mod profile;
pub mod character_inventory;
pub mod soids;
pub mod validation;
pub mod equipped;
pub mod equipment_edit;
pub mod definition_choices;
pub mod bucket_usage;
pub mod bucket_groups;
pub mod json_editor;
pub mod status;
