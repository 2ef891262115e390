//! The attribute store adapter and the per-path operations. Tags live in one
//! named extended attribute; reading, writing and removing that attribute
//! are the only side effects here, and each goes through the host's
//! extended-attribute facility. A path that is a symlink is operated on
//! itself, not followed. What an operation computes from the bytes it read
//! is verified in `apply`; what the filesystem answers is not promised.

use vstd::prelude::*;
use crate::apply::any_tag_hits_separator;
use crate::apply::apply_delete;
use crate::apply::apply_rename;
use crate::apply::apply_set;
use crate::apply::decode_stored;
use crate::apply::tag_collides;
use crate::apply::tag_hits_separator;
use crate::apply::tags_collide;
use crate::tags::TagSet;

verus! {

/// The fixed name of the extended attribute the tags are stored under.
pub const ATTR_NAME: &'static str = "user.tags";

/// Why an operation on one path failed.
#[derive(Debug, PartialEq, Eq)]
pub enum TagError {
    /// The path does not exist or cannot be reached.
    NotFound,
    /// The attribute could not be read, written or removed; holds the host's
    /// message.
    Io(String),
    /// A caller-supplied tag holds the delimiter byte; storing it would
    /// corrupt decoding, so it is rejected before anything is written.
    EncodingViolation,
}

/// Trusted: relies on `xattr::get`, which reads the named extended attribute
/// of the path (a symlink itself, not its target) and yields `None` when the
/// attribute is absent. What comes back depends on the filesystem, so
/// nothing is promised of a success; an error is a per-path read failure.
#[verifier::external_body]
fn attr_read(file: &str) -> (r: Result<Option<Vec<u8>>, TagError>)
    ensures
        r matches Err(e) ==> (e is NotFound || e is Io),
{
    match xattr::get(file, ATTR_NAME) {
        Ok(v) => Ok(v),
        Err(e) => {
            if e.kind() == std::io::ErrorKind::NotFound {
                Err(TagError::NotFound)
            } else {
                Err(TagError::Io(e.to_string()))
            }
        },
    }
}

/// Trusted: relies on `xattr::set`, which creates or replaces the named
/// extended attribute of the path with exactly the given bytes. Success
/// depends on the filesystem; an error is a per-path write failure.
#[verifier::external_body]
fn attr_write(file: &str, value: &Vec<u8>) -> (r: Result<(), TagError>)
    ensures
        r matches Err(e) ==> (e is NotFound || e is Io),
{
    match xattr::set(file, ATTR_NAME, value.as_slice()) {
        Ok(()) => Ok(()),
        Err(e) => {
            if e.kind() == std::io::ErrorKind::NotFound {
                Err(TagError::NotFound)
            } else {
                Err(TagError::Io(e.to_string()))
            }
        },
    }
}

/// Trusted: relies on `xattr::remove`, which deletes the named extended
/// attribute of the path; the file itself is untouched. Removing an absent
/// attribute fails, which callers here tolerate.
#[verifier::external_body]
fn attr_remove(file: &str) -> (r: Result<(), TagError>)
    ensures
        r matches Err(e) ==> (e is NotFound || e is Io),
{
    match xattr::remove(file, ATTR_NAME) {
        Ok(()) => Ok(()),
        Err(e) => {
            if e.kind() == std::io::ErrorKind::NotFound {
                Err(TagError::NotFound)
            } else {
                Err(TagError::Io(e.to_string()))
            }
        },
    }
}

/// Reads the tags stored on the given path: `Ok(None)` when the attribute is
/// absent, `Ok(Some(tags))` with the decoded, duplicate-free tag set when it
/// is present, and the per-path error when the path cannot be read.
pub fn check_existent_tags(file: &str) -> (r: Result<Option<TagSet>, TagError>)
    ensures
        r matches Ok(Some(t)) ==> t.wf(),
        r matches Err(e) ==> (e is NotFound || e is Io),
{
    match attr_read(file) {
        Ok(stored) => Ok(decode_stored(stored)),
        Err(e) => Err(e),
    }
}

/// Returns the tags stored on the path, if there is at least one: `None`
/// both when the attribute is absent and when the path cannot be read; use
/// [`check_existent_tags`] to tell the two apart.
pub fn get_tags(file: &str) -> (r: Option<TagSet>)
    ensures
        r matches Some(t) ==> t.wf(),
{
    match check_existent_tags(file) {
        Ok(res) => res,
        Err(_) => None,
    }
}

/// Sets the given tags on the path: merges them into whatever is stored,
/// adding no tag twice and losing none. A tag whose byte form holds the
/// delimiter is rejected before anything is read or written, and that is the
/// only source of `EncodingViolation`; other errors are per-path read or
/// write failures. The written buffer is `set_outcome` of what was read.
pub fn set_tags(file: &str, new_tags: &TagSet) -> (r: Result<(), TagError>)
    ensures
        r == Err::<(), TagError>(TagError::EncodingViolation) <==> any_tag_hits_separator(
            new_tags@,
        ),
{
    if tags_collide(new_tags) {
        return Err(TagError::EncodingViolation);
    }
    let stored = match attr_read(file) {
        Ok(v) => v,
        Err(e) => {
            return Err(e);
        },
    };
    match apply_set(stored, new_tags) {
        Some(value) => attr_write(file, &value),
        None => {
            // an empty merge is never persisted; removing an attribute that
            // was already absent is tolerated
            let _ = attr_remove(file);
            Ok(())
        },
    }
}

/// Deletes the given tags from the path, preserving the others; deleting a
/// tag that is not stored changes nothing. When no tag remains the attribute
/// is removed outright, never left empty; an absent attribute stays as it
/// is. Errors are per-path read or write failures, never
/// `EncodingViolation`. The written buffer is `delete_outcome` of what was
/// read.
pub fn del_tags(file: &str, tags_to_del: &TagSet) -> (r: Result<(), TagError>)
    ensures
        r matches Err(e) ==> (e is NotFound || e is Io),
{
    let stored = match attr_read(file) {
        Ok(v) => v,
        Err(e) => {
            return Err(e);
        },
    };
    if stored.is_none() {
        // nothing stored: deleting is a no-op
        return Ok(());
    }
    match apply_delete(stored, tags_to_del) {
        Some(value) => attr_write(file, &value),
        None => {
            // the last tag went away: the attribute is removed, not emptied
            let _ = attr_remove(file);
            Ok(())
        },
    }
}

/// Renames one stored tag: when `old` is stored it is taken out and `new`
/// merged in, in one write; when it is not stored, or nothing is, the path
/// is untouched. A new name whose byte form holds the delimiter is rejected
/// before anything is read or written, and that is the only source of
/// `EncodingViolation`. The written buffer is `rename_outcome` of what was
/// read.
pub fn rename_tag(file: &str, old: String, new: String) -> (r: Result<(), TagError>)
    ensures
        r == Err::<(), TagError>(TagError::EncodingViolation) <==> tag_hits_separator(new@),
{
    if tag_collides(&new) {
        return Err(TagError::EncodingViolation);
    }
    let stored = match attr_read(file) {
        Ok(v) => v,
        Err(e) => {
            return Err(e);
        },
    };
    match apply_rename(stored, &old, &new) {
        Some(value) => attr_write(file, &value),
        None => Ok(()),
    }
}

} // verus!
