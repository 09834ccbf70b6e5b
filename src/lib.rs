//! Directory-tree listing rules and data-URL construction for a file browser.
//!
//! The filesystem itself is read by the caller; this library decides which
//! entries are shown, in what order, which directories are expanded, and how
//! image bytes become a `data:` URL.

pub mod listing;
pub mod data_url;

pub use listing::{
    FileNode, is_excluded, wants_children, entry_node, keys_in_order, node_precedes, arrange_level,
};

pub use data_url::{mime_type, data_url_from_payload, image_data_url};
