//! Tag manager: keeps a set of string tags per filesystem entry, stored in
//! one extended attribute as a comma-delimited byte buffer.
//!
//! The library is organised leaf-first: `tags` is the tag-set type with its
//! union and difference algebra, `codec` turns a tag set into the raw
//! delimited buffer and back, `apply` computes what a set or delete does to
//! a stored attribute value, `store` performs those plans on real paths
//! through the extended-attribute facility, and `walk` is the worklist that
//! drives a pre-order directory traversal.

pub mod apply;
pub mod codec;
pub mod store;
pub mod tags;
pub mod walk;

pub use codec::hash_set_to_vec_u8;
pub use codec::vec_u8_to_hash_set;
pub use store::check_existent_tags;
pub use store::del_tags;
pub use store::get_tags;
pub use store::rename_tag;
pub use store::set_tags;
pub use store::TagError;
pub use tags::hash_set_str_to_hash_set_string;
pub use tags::TagSet;
pub use walk::Worklist;
