//! What one operation does to one stored attribute value. The stored state
//! of a path is modelled as `Option<Seq<u8>>`: the raw buffer when the
//! attribute is present, absence otherwise. An empty tag collection is never
//! persisted: every outcome that would store it is absence instead.

use vstd::prelude::*;
use crate::codec::SEPARATOR;
use crate::codec::decoded_seq;
use crate::codec::encoded;
use crate::codec::hash_set_to_vec_u8;
use crate::codec::lemma_encoded_nonempty;
use crate::codec::lemma_round_trip;
use crate::codec::storable_tag;
use crate::codec::tag_bytes;
use crate::codec::vec_u8_to_hash_set;
use crate::tags::TagSet;
use crate::tags::diff_seq;
use crate::tags::distinct_seq;
use crate::tags::lemma_dedup_absorb;
use crate::tags::lemma_dedup_distinct;
use crate::tags::lemma_dedup_membership;
use crate::tags::lemma_diff_all_kept;
use crate::tags::lemma_diff_all_removed;
use crate::tags::lemma_union_as_sets;
use crate::tags::union_seq;
use vstd::string::StrSliceExecFns;

verus! {

/// The tags a stored attribute value decodes to; an absent attribute holds
/// no tags.
pub open spec fn stored_tags(stored: Option<Seq<u8>>) -> Seq<Seq<char>> {
    match stored {
        Some(raw) => decoded_seq(raw),
        None => Seq::empty(),
    }
}

/// The stored value after a set operation: the incoming tags merged into the
/// existing ones without duplication. A merge that encodes to the empty
/// buffer is stored as absence: an empty raw value never exists as a stored
/// state.
pub open spec fn set_outcome(stored: Option<Seq<u8>>, incoming: Seq<Seq<char>>) -> Option<
    Seq<u8>,
> {
    let raw = encoded(union_seq(stored_tags(stored), incoming));
    if raw.len() == 0 {
        None
    } else {
        Some(raw)
    }
}

/// The stored value after a delete operation: the named tags taken out of
/// the existing ones; when nothing remains the attribute is absent, and an
/// absent attribute stays absent.
pub open spec fn delete_outcome(stored: Option<Seq<u8>>, removing: Seq<Seq<char>>) -> Option<
    Seq<u8>,
> {
    match stored {
        Some(raw) => {
            let rest = encoded(diff_seq(decoded_seq(raw), removing));
            if rest.len() == 0 {
                None
            } else {
                Some(rest)
            }
        },
        None => None,
    }
}

/// The value a rename owes the store: when the old name is stored, the
/// buffer with it taken out and the new name merged in; `None` when the old
/// name is not stored (or nothing is), meaning nothing is to be written. A
/// result that would store the empty buffer is not written either.
pub open spec fn rename_outcome(
    stored: Option<Seq<u8>>,
    old_name: Seq<char>,
    new_name: Seq<char>,
) -> Option<Seq<u8>> {
    match stored {
        Some(raw) => {
            let tags = decoded_seq(raw);
            let renamed = encoded(union_seq(diff_seq(tags, seq![old_name]), seq![new_name]));
            if tags.contains(old_name) && renamed.len() > 0 {
                Some(renamed)
            } else {
                None
            }
        },
        None => None,
    }
}

/// True when the stored byte form of the tag would hold the delimiter byte,
/// so that storing it would corrupt decoding.
pub open spec fn tag_hits_separator(t: Seq<char>) -> bool {
    tag_bytes(t).contains(SEPARATOR)
}

/// True when some tag of the collection would collide with the delimiter.
pub open spec fn any_tag_hits_separator(tags: Seq<Seq<char>>) -> bool {
    exists|i: int| 0 <= i < tags.len() && tag_hits_separator(#[trigger] tags[i])
}

/// True when the byte form of this tag holds the delimiter byte.
pub fn tag_collides(tag: &String) -> (r: bool)
    ensures
        r == tag_hits_separator(tag@),
{
    let bs = tag.as_str().as_bytes_vec();
    let mut i: usize = 0;
    while i < bs.len()
        invariant
            i <= bs@.len(),
            bs@ == tag_bytes(tag@),
            forall|k: int| 0 <= k < i ==> bs@[k] != SEPARATOR,
        decreases bs@.len() - i,
    {
        if bs[i] == SEPARATOR {
            assert(tag_bytes(tag@)[i as int] == SEPARATOR);
            return true;
        }
        i = i + 1;
    }
    false
}

/// True when some tag of the set would collide with the delimiter.
pub fn tags_collide(tags: &TagSet) -> (r: bool)
    ensures
        r == any_tag_hits_separator(tags@),
{
    let mut i: usize = 0;
    while i < tags.len()
        invariant
            i <= tags@.len(),
            forall|k: int| 0 <= k < i ==> !tag_hits_separator(#[trigger] tags@[k]),
        decreases tags@.len() - i,
    {
        if tag_collides(tags.get(i)) {
            return true;
        }
        i = i + 1;
    }
    false
}

/// The pure part of a get: an absent attribute stays `None`, a present one
/// decodes to its tag set.
pub fn decode_stored(stored: Option<Vec<u8>>) -> (r: Option<TagSet>)
    ensures
        (match stored {
            Some(raw) => r matches Some(t) && t@ == decoded_seq(raw@) && t.wf(),
            None => r is None,
        }),
{
    match stored {
        Some(raw) => Some(vec_u8_to_hash_set(raw)),
        None => None,
    }
}

/// Computes the stored value a set operation leaves behind. `None` means the
/// attribute must be absent afterwards; an empty buffer is never returned as
/// a value to store.
pub fn apply_set(stored: Option<Vec<u8>>, incoming: &TagSet) -> (r: Option<Vec<u8>>)
    ensures
        r.deep_view() == set_outcome(stored.deep_view(), incoming@),
{
    let ghost gstored = stored.deep_view();
    let existing = match stored {
        Some(raw) => {
            proof {
                assert(raw.deep_view() =~= raw@);
            }
            vec_u8_to_hash_set(raw)
        },
        None => TagSet::new(),
    };
    proof {
        assert(existing@ == stored_tags(gstored));
    }
    let merged = existing.union(incoming);
    let out = hash_set_to_vec_u8(&merged);
    if out.is_empty() {
        None
    } else {
        proof {
            assert(out.deep_view() =~= out@);
        }
        Some(out)
    }
}

/// Computes the stored value a delete operation leaves behind. `None` means
/// the attribute must be absent afterwards, which is where deleting the last
/// tag leads; an absent attribute stays absent.
pub fn apply_delete(stored: Option<Vec<u8>>, removing: &TagSet) -> (r: Option<Vec<u8>>)
    ensures
        r.deep_view() == delete_outcome(stored.deep_view(), removing@),
{
    match stored {
        Some(raw) => {
            proof {
                assert(raw.deep_view() =~= raw@);
            }
            let existing = vec_u8_to_hash_set(raw);
            let remaining = existing.difference(removing);
            let out = hash_set_to_vec_u8(&remaining);
            if out.is_empty() {
                None
            } else {
                proof {
                    assert(out.deep_view() =~= out@);
                }
                Some(out)
            }
        },
        None => None,
    }
}

/// Computes the value a rename owes the store: the buffer with the old name
/// replaced by the new one when the old name is stored, `None` (write
/// nothing) otherwise.
pub fn apply_rename(stored: Option<Vec<u8>>, old_name: &String, new_name: &String) -> (r: Option<
    Vec<u8>,
>)
    ensures
        r.deep_view() == rename_outcome(stored.deep_view(), old_name@, new_name@),
{
    match stored {
        Some(raw) => {
            proof {
                assert(raw.deep_view() =~= raw@);
            }
            let existing = vec_u8_to_hash_set(raw);
            if existing.contains(old_name) {
                let mut old_set = TagSet::new();
                let _ = old_set.insert(old_name.clone());
                let mut new_set = TagSet::new();
                let _ = new_set.insert(new_name.clone());
                proof {
                    assert(old_set@ =~= seq![old_name@]);
                    assert(new_set@ =~= seq![new_name@]);
                }
                let renamed = existing.difference(&old_set).union(&new_set);
                let out = hash_set_to_vec_u8(&renamed);
                if out.is_empty() {
                    None
                } else {
                    proof {
                        assert(out.deep_view() =~= out@);
                    }
                    Some(out)
                }
            } else {
                None
            }
        },
        None => None,
    }
}

/// The hard invariant of every mutation: no outcome ever stores the empty
/// buffer — an empty result is always expressed as attribute absence, since
/// an empty stored value would be ambiguous with no attribute at all.
pub proof fn lemma_no_empty_buffer_stored(
    stored: Option<Seq<u8>>,
    tags: Seq<Seq<char>>,
    old_name: Seq<char>,
    new_name: Seq<char>,
)
    ensures
        set_outcome(stored, tags) matches Some(v) ==> v.len() > 0,
        delete_outcome(stored, tags) matches Some(v) ==> v.len() > 0,
        rename_outcome(stored, old_name, new_name) matches Some(v) ==> v.len() > 0,
{
}

/// Every member of a merge is storable when both sides' members are.
proof fn lemma_union_members_storable(existing: Seq<Seq<char>>, incoming: Seq<Seq<char>>)
    requires
        forall|i: int| 0 <= i < existing.len() ==> storable_tag(#[trigger] existing[i]),
        forall|i: int| 0 <= i < incoming.len() ==> storable_tag(#[trigger] incoming[i]),
    ensures
        forall|i: int|
            0 <= i < union_seq(existing, incoming).len() ==> storable_tag(
                #[trigger] union_seq(existing, incoming)[i],
            ),
{
    let u = union_seq(existing, incoming);
    assert forall|i: int| 0 <= i < u.len() implies storable_tag(u[i]) by {
        assert(u.contains(u[i]));
        lemma_dedup_membership(existing + incoming, u[i]);
        let j = choose|j: int|
            0 <= j < (existing + incoming).len() && (existing + incoming)[j] == u[i];
        if j < existing.len() {
            assert(existing[j] == u[i]);
        } else {
            assert(incoming[j - existing.len()] == u[i]);
        }
    }
}

/// Idempotent set: applying the same incoming tags to the outcome of a first
/// application changes nothing, provided every tag involved is storable.
pub proof fn lemma_set_idempotent(stored: Option<Seq<u8>>, incoming: Seq<Seq<char>>)
    requires
        forall|i: int| 0 <= i < incoming.len() ==> storable_tag(#[trigger] incoming[i]),
        forall|i: int|
            0 <= i < stored_tags(stored).len() ==> storable_tag(#[trigger] stored_tags(stored)[i]),
    ensures
        set_outcome(set_outcome(stored, incoming), incoming) == set_outcome(stored, incoming),
{
    let e = stored_tags(stored);
    let merged = union_seq(e, incoming);
    lemma_dedup_distinct(e + incoming);
    lemma_union_members_storable(e, incoming);
    if encoded(merged).len() == 0 {
        assert(merged.len() == 0) by {
            if merged.len() > 0 {
                lemma_encoded_nonempty(merged);
            }
        }
        assert((e + incoming).len() == 0) by {
            if (e + incoming).len() > 0 {
                let x = (e + incoming)[0];
                assert((e + incoming).contains(x));
                lemma_dedup_membership(e + incoming, x);
            }
        }
        assert(incoming.len() == 0);
        assert(stored_tags(set_outcome(stored, incoming)) =~= Seq::<Seq<char>>::empty());
        assert(Seq::<Seq<char>>::empty() + incoming =~= Seq::<Seq<char>>::empty());
        assert(union_seq(Seq::<Seq<char>>::empty(), incoming).len() == 0);
        assert(encoded(union_seq(Seq::<Seq<char>>::empty(), incoming)).len() == 0);
    } else {
        assert(merged.len() > 0) by {
            if merged.len() == 0 {
                assert(merged.map_values(|t: Seq<char>| tag_bytes(t)).len() == 0);
            }
        }
        lemma_round_trip(merged);
        assert(stored_tags(set_outcome(stored, incoming)) == merged);
        assert forall|i: int| 0 <= i < incoming.len() implies merged.contains(
            #[trigger] incoming[i],
        ) by {
            lemma_dedup_membership(e + incoming, incoming[i]);
            assert((e + incoming)[e.len() + i] == incoming[i]);
        }
        lemma_dedup_absorb(merged, incoming);
        assert(union_seq(merged, incoming) == merged);
    }
}

/// After a set operation the stored tags are, as a set, exactly the union of
/// what was stored and what came in, provided every tag involved is storable.
pub proof fn lemma_set_outcome_is_union(stored: Option<Seq<u8>>, incoming: Seq<Seq<char>>)
    requires
        forall|i: int| 0 <= i < incoming.len() ==> storable_tag(#[trigger] incoming[i]),
        forall|i: int|
            0 <= i < stored_tags(stored).len() ==> storable_tag(#[trigger] stored_tags(stored)[i]),
    ensures
        stored_tags(set_outcome(stored, incoming)).to_set() == stored_tags(stored).to_set()
            + incoming.to_set(),
{
    let e = stored_tags(stored);
    let merged = union_seq(e, incoming);
    lemma_dedup_distinct(e + incoming);
    lemma_union_members_storable(e, incoming);
    lemma_union_as_sets(e, incoming);
    if encoded(merged).len() == 0 {
        assert(merged.len() == 0) by {
            if merged.len() > 0 {
                lemma_encoded_nonempty(merged);
            }
        }
        assert((e + incoming).len() == 0) by {
            if (e + incoming).len() > 0 {
                let x = (e + incoming)[0];
                assert((e + incoming).contains(x));
                lemma_dedup_membership(e + incoming, x);
            }
        }
        assert(e.len() == 0 && incoming.len() == 0);
        assert(stored_tags(set_outcome(stored, incoming)).to_set() =~= e.to_set()
            + incoming.to_set());
    } else {
        assert(merged.len() > 0) by {
            if merged.len() == 0 {
                assert(merged.map_values(|t: Seq<char>| tag_bytes(t)).len() == 0);
            }
        }
        lemma_round_trip(merged);
        assert(stored_tags(set_outcome(stored, incoming)).to_set() == e.to_set()
            + incoming.to_set());
    }
}

/// Selective delete, the no-op half: deleting tags none of which are stored
/// leaves the stored value untouched, for a canonically stored collection of
/// storable tags.
pub proof fn lemma_delete_absent_no_op(tags: Seq<Seq<char>>, removing: Seq<Seq<char>>)
    requires
        tags.len() > 0,
        forall|i: int| 0 <= i < tags.len() ==> storable_tag(#[trigger] tags[i]),
        distinct_seq(tags),
        forall|i: int| 0 <= i < tags.len() ==> !removing.contains(#[trigger] tags[i]),
    ensures
        delete_outcome(Some(encoded(tags)), removing) == Some(encoded(tags)),
{
    lemma_round_trip(tags);
    lemma_diff_all_kept(tags, removing);
    lemma_encoded_nonempty(tags);
}

/// Empty-set cleanup: deleting every stored tag leaves the attribute absent,
/// never an empty stored buffer.
pub proof fn lemma_delete_all_clears(tags: Seq<Seq<char>>, removing: Seq<Seq<char>>)
    requires
        tags.len() > 0,
        forall|i: int| 0 <= i < tags.len() ==> storable_tag(#[trigger] tags[i]),
        distinct_seq(tags),
        forall|i: int| 0 <= i < tags.len() ==> removing.contains(#[trigger] tags[i]),
    ensures
        delete_outcome(Some(encoded(tags)), removing) == None::<Seq<u8>>,
{
    lemma_round_trip(tags);
    lemma_diff_all_removed(tags, removing);
    let remaining = diff_seq(decoded_seq(encoded(tags)), removing);
    assert(remaining.map_values(|t: Seq<char>| tag_bytes(t)).len() == 0);
    assert(encoded(remaining).len() == 0);
}

} // verus!
