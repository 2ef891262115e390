//! The tag codec: a tag collection is stored as the tags' bytes joined by a
//! single reserved delimiter byte, with no leading or trailing delimiter; an
//! empty collection is stored as the empty buffer (in practice: as attribute
//! absence). Decoding splits on the delimiter and collapses duplicates; it
//! never fails, whatever the bytes hold.

use vstd::prelude::*;
use vstd::utf8::encode_utf8;
use vstd::utf8::is_ascii_chars;
use vstd::utf8::is_ascii_chars_encode_utf8;
use vstd::string::StrSliceExecFns;
use crate::tags::TagSet;
use crate::tags::dedup_seq;
use crate::tags::distinct_seq;
use crate::tags::lemma_dedup_distinct;
use crate::tags::lemma_dedup_of_distinct;
use crate::tags::lemma_dedup_push;

verus! {

/// The reserved delimiter byte separating tags in the stored buffer: the
/// comma, `','`.
pub const SEPARATOR: u8 = 44;

/// Trusted: std's `String::push` appends the given character to the string.
pub assume_specification[ String::push ](s: &mut String, c: char)
    ensures
        final(s)@ == old(s)@.push(c),
;

/// The characters a raw byte token decodes to: each byte read as one
/// character, whatever the byte is.
pub open spec fn token_of(bytes: Seq<u8>) -> Seq<char> {
    Seq::new(bytes.len(), |i: int| bytes[i] as char)
}

/// The bytes a tag is stored as: the UTF-8 encoding of its characters.
pub open spec fn tag_bytes(t: Seq<char>) -> Seq<u8> {
    encode_utf8(t)
}

/// A tag the codec stores faithfully: non-empty, ASCII, and free of the
/// delimiter character.
pub open spec fn storable_tag(t: Seq<char>) -> bool {
    &&& t.len() > 0
    &&& is_ascii_chars(t)
    &&& !t.contains(SEPARATOR as char)
}

/// The raw buffer split at every delimiter byte: always at least one token,
/// and a token never holds the delimiter. The empty buffer yields one empty
/// token; `decoded_seq` treats it separately.
pub open spec fn split_bytes(raw: Seq<u8>) -> Seq<Seq<u8>>
    decreases raw.len(),
{
    if raw.len() == 0 {
        seq![Seq::<u8>::empty()]
    } else if raw[0] == SEPARATOR {
        seq![Seq::<u8>::empty()] + split_bytes(raw.drop_first())
    } else {
        let rest = split_bytes(raw.drop_first());
        seq![seq![raw[0]] + rest[0]] + rest.drop_first()
    }
}

/// Byte tokens read as character tokens.
pub open spec fn tokens_to_tags(toks: Seq<Seq<u8>>) -> Seq<Seq<char>> {
    toks.map_values(|b: Seq<u8>| token_of(b))
}

/// The tag collection a raw buffer decodes to: nothing for the empty buffer,
/// otherwise the delimiter-split tokens with duplicates collapsed, first
/// occurrence kept.
pub open spec fn decoded_seq(raw: Seq<u8>) -> Seq<Seq<char>> {
    if raw.len() == 0 {
        Seq::empty()
    } else {
        dedup_seq(tokens_to_tags(split_bytes(raw)))
    }
}

/// Byte parts joined by the delimiter, with no leading or trailing delimiter.
pub open spec fn join_bytes(parts: Seq<Seq<u8>>) -> Seq<u8>
    decreases parts.len(),
{
    if parts.len() == 0 {
        Seq::empty()
    } else if parts.len() == 1 {
        parts[0]
    } else {
        parts[0] + seq![SEPARATOR] + join_bytes(parts.drop_first())
    }
}

/// The raw buffer an ordered tag collection is stored as.
pub open spec fn encoded(tags: Seq<Seq<char>>) -> Seq<u8> {
    join_bytes(tags.map_values(|t: Seq<char>| tag_bytes(t)))
}

/// Splitting is one token more after a delimiter-free prefix and a delimiter.
proof fn lemma_split_prepend_token(p: Seq<u8>, tail: Seq<u8>)
    requires
        forall|k: int| 0 <= k < p.len() ==> p[k] != SEPARATOR,
    ensures
        split_bytes(p + seq![SEPARATOR] + tail) == seq![p] + split_bytes(tail),
    decreases p.len(),
{
    let raw = p + seq![SEPARATOR] + tail;
    if p.len() == 0 {
        assert(raw[0] == SEPARATOR);
        assert(raw.drop_first() =~= tail);
        assert(p =~= Seq::<u8>::empty());
        assert(split_bytes(raw) =~= seq![p] + split_bytes(tail));
    } else {
        assert(raw[0] == p[0]);
        assert(raw.drop_first() =~= p.drop_first() + seq![SEPARATOR] + tail);
        lemma_split_prepend_token(p.drop_first(), tail);
        let rest = split_bytes(raw.drop_first());
        assert(rest == seq![p.drop_first()] + split_bytes(tail));
        assert(rest[0] == p.drop_first());
        assert(seq![raw[0]] + rest[0] =~= p);
        assert(rest.drop_first() =~= split_bytes(tail));
        assert(split_bytes(raw) =~= seq![p] + split_bytes(tail));
    }
}

/// A delimiter-free buffer splits into exactly one token: itself.
proof fn lemma_split_whole(p: Seq<u8>)
    requires
        forall|k: int| 0 <= k < p.len() ==> p[k] != SEPARATOR,
    ensures
        split_bytes(p) == seq![p],
    decreases p.len(),
{
    if p.len() == 0 {
        assert(p =~= Seq::<u8>::empty());
        assert(split_bytes(p) =~= seq![p]);
    } else {
        lemma_split_whole(p.drop_first());
        let rest = split_bytes(p.drop_first());
        assert(rest[0] == p.drop_first());
        assert(seq![p[0]] + rest[0] =~= p);
        assert(rest.drop_first() =~= Seq::<Seq<u8>>::empty());
        assert(split_bytes(p) =~= seq![p]);
    }
}

/// Joining one more part appends a delimiter and the part.
proof fn lemma_join_push(ps: Seq<Seq<u8>>, p: Seq<u8>)
    ensures
        ps.len() == 0 ==> join_bytes(ps.push(p)) == p,
        ps.len() > 0 ==> join_bytes(ps.push(p)) == join_bytes(ps) + seq![SEPARATOR] + p,
    decreases ps.len(),
{
    let q = ps.push(p);
    if ps.len() == 0 {
        assert(q.len() == 1);
        assert(q[0] == p);
    } else {
        assert(q[0] == ps[0]);
        assert(q.drop_first() =~= ps.drop_first().push(p));
        lemma_join_push(ps.drop_first(), p);
        if ps.len() == 1 {
            assert(join_bytes(q) == ps[0] + seq![SEPARATOR] + p);
            assert(join_bytes(ps) == ps[0]);
        } else {
            assert(join_bytes(q) =~= join_bytes(ps) + seq![SEPARATOR] + p);
        }
    }
}

/// An ASCII character survives the trip through its storage byte.
proof fn lemma_ascii_char_roundtrip(c: char)
    requires
        c <= '\u{7f}',
    ensures
        ((c as u8) as char) == c,
        c != (SEPARATOR as char) ==> (c as u8) != SEPARATOR,
{
    assert(c as u32 <= 127);
    assert((c as u8) as char == c);
}

/// The stored bytes of a storable tag read back as that tag, and hold no
/// delimiter byte.
proof fn lemma_tag_bytes_faithful(t: Seq<char>)
    requires
        is_ascii_chars(t),
        !t.contains(SEPARATOR as char),
    ensures
        token_of(tag_bytes(t)) == t,
        tag_bytes(t).len() == t.len(),
        forall|k: int| 0 <= k < tag_bytes(t).len() ==> tag_bytes(t)[k] != SEPARATOR,
{
    is_ascii_chars_encode_utf8(t);
    let bs = tag_bytes(t);
    assert forall|k: int| 0 <= k < bs.len() implies token_of(bs)[k] == t[k] && bs[k]
        != SEPARATOR by {
        assert(bs[k] == t[k] as u8);
        assert(!t.contains(SEPARATOR as char) ==> t[k] != (SEPARATOR as char));
        lemma_ascii_char_roundtrip(t[k]);
    }
    assert(token_of(bs) =~= t);
}

/// Joined delimiter-free parts split back into exactly those parts.
proof fn lemma_split_join(parts: Seq<Seq<u8>>)
    requires
        parts.len() > 0,
        forall|i: int, k: int|
            0 <= i < parts.len() && 0 <= k < parts[i].len() ==> parts[i][k] != SEPARATOR,
    ensures
        split_bytes(join_bytes(parts)) == parts,
    decreases parts.len(),
{
    if parts.len() == 1 {
        lemma_split_whole(parts[0]);
        assert(split_bytes(join_bytes(parts)) =~= parts);
    } else {
        let tail = join_bytes(parts.drop_first());
        assert(join_bytes(parts) == parts[0] + seq![SEPARATOR] + tail);
        lemma_split_prepend_token(parts[0], tail);
        lemma_split_join(parts.drop_first());
        assert(split_bytes(join_bytes(parts)) =~= parts);
    }
}

/// A collection of storable tags never encodes to the empty buffer: only
/// the empty collection does (a lone empty tag being the one other, not
/// storable, source of emptiness).
pub proof fn lemma_encoded_nonempty(tags: Seq<Seq<char>>)
    requires
        tags.len() > 0,
        forall|i: int| 0 <= i < tags.len() ==> storable_tag(#[trigger] tags[i]),
    ensures
        encoded(tags).len() > 0,
{
    let parts = tags.map_values(|t: Seq<char>| tag_bytes(t));
    assert(parts[0].len() == tags[0].len()) by {
        lemma_tag_bytes_faithful(tags[0]);
    }
    if parts.len() == 1 {
        assert(encoded(tags) == parts[0]);
    } else {
        assert(encoded(tags) == parts[0] + seq![SEPARATOR] + join_bytes(parts.drop_first()));
    }
}

/// Round trip: decoding an encoded tag collection yields it back, provided
/// every tag is storable (non-empty, ASCII, delimiter-free) and no tag is
/// repeated.
pub proof fn lemma_round_trip(tags: Seq<Seq<char>>)
    requires
        forall|i: int| 0 <= i < tags.len() ==> storable_tag(#[trigger] tags[i]),
        distinct_seq(tags),
    ensures
        decoded_seq(encoded(tags)) == tags,
{
    let parts = tags.map_values(|t: Seq<char>| tag_bytes(t));
    assert forall|i: int| 0 <= i < tags.len() implies token_of(#[trigger] parts[i]) == tags[i]
        && parts[i].len() == tags[i].len() && forall|k: int|
        0 <= k < parts[i].len() ==> parts[i][k] != SEPARATOR by {
        lemma_tag_bytes_faithful(tags[i]);
    }
    if tags.len() == 0 {
        assert(encoded(tags).len() == 0);
        assert(decoded_seq(encoded(tags)) =~= tags);
    } else {
        lemma_encoded_nonempty(tags);
        lemma_split_join(parts);
        assert(tokens_to_tags(parts) =~= tags);
        lemma_dedup_of_distinct(tags);
        assert(decoded_seq(encoded(tags)) == tags);
    }
}

/// Serializes a tag set into the raw attribute buffer: the tags' bytes in
/// storage order, joined by the delimiter, with no trailing delimiter; the
/// empty set gives the empty buffer.
pub fn hash_set_to_vec_u8(tags_set: &TagSet) -> (r: Vec<u8>)
    ensures
        r@ == encoded(tags_set@),
{
    let mut out: Vec<u8> = Vec::new();
    let mut i: usize = 0;
    proof {
        assert(tags_set@.take(0).map_values(|t: Seq<char>| tag_bytes(t)) =~= Seq::<
            Seq<u8>,
        >::empty());
    }
    while i < tags_set.len()
        invariant
            i <= tags_set@.len(),
            out@ == encoded(tags_set@.take(i as int)),
        decreases tags_set@.len() - i,
    {
        let ghost prefix = tags_set@.take(i as int).map_values(|t: Seq<char>| tag_bytes(t));
        if i > 0 {
            out.push(SEPARATOR);
        }
        let tag = tags_set.get(i);
        let mut bs = tag.as_str().as_bytes_vec();
        proof {
            assert(bs@ == tag_bytes(tags_set@[i as int]));
        }
        out.append(&mut bs);
        proof {
            lemma_join_push(prefix, tag_bytes(tags_set@[i as int]));
            assert(tags_set@.take(i + 1).map_values(|t: Seq<char>| tag_bytes(t)) =~= prefix.push(
                tag_bytes(tags_set@[i as int]),
            ));
        }
        i = i + 1;
    }
    proof {
        assert(tags_set@.take(tags_set@.len() as int) =~= tags_set@);
    }
    out
}

/// Parses a raw attribute buffer back into a tag set: the empty buffer gives
/// the empty set, any other buffer is split on the delimiter, duplicates
/// collapsed. Never fails, whatever the bytes hold.
pub fn vec_u8_to_hash_set(tags_u8: Vec<u8>) -> (r: TagSet)
    ensures
        r@ == decoded_seq(tags_u8@),
        r.wf(),
{
    let mut res = TagSet::new();
    if tags_u8.len() == 0 {
        return res;
    }
    let mut cur = String::new();
    let ghost mut cur_start: int = 0;
    let ghost mut done: Seq<Seq<u8>> = Seq::empty();
    let mut i: usize = 0;
    proof {
        assert(tags_u8@.skip(0) =~= tags_u8@);
        assert(split_bytes(tags_u8@) =~= done + split_bytes(tags_u8@.skip(0)));
        assert(cur@ =~= token_of(tags_u8@.subrange(0, 0)));
        assert(tokens_to_tags(done) =~= Seq::<Seq<char>>::empty());
    }
    while i < tags_u8.len()
        invariant
            0 <= cur_start <= i <= tags_u8@.len(),
            split_bytes(tags_u8@) == done + split_bytes(tags_u8@.skip(cur_start)),
            forall|k: int| cur_start <= k < i ==> tags_u8@[k] != SEPARATOR,
            cur@ == token_of(tags_u8@.subrange(cur_start, i as int)),
            res@ == dedup_seq(tokens_to_tags(done)),
        decreases tags_u8@.len() - i,
    {
        let b = tags_u8[i];
        if b == SEPARATOR {
            let ghost tok = tags_u8@.subrange(cur_start, i as int);
            proof {
                assert(tags_u8@.skip(cur_start) =~= tok + seq![SEPARATOR] + tags_u8@.skip(
                    i as int + 1,
                ));
                lemma_split_prepend_token(tok, tags_u8@.skip(i as int + 1));
                lemma_dedup_push(tokens_to_tags(done), token_of(tok));
                assert(tokens_to_tags(done.push(tok)) =~= tokens_to_tags(done).push(
                    token_of(tok),
                ));
            }
            let _ = res.insert(cur);
            cur = String::new();
            proof {
                done = done.push(tok);
                cur_start = i as int + 1;
                assert(split_bytes(tags_u8@) =~= done + split_bytes(tags_u8@.skip(cur_start)));
                assert(cur@ =~= token_of(tags_u8@.subrange(cur_start, cur_start)));
            }
        } else {
            cur.push(b as char);
            proof {
                assert(token_of(tags_u8@.subrange(cur_start, i as int + 1)) =~= token_of(
                    tags_u8@.subrange(cur_start, i as int),
                ).push(b as char));
            }
        }
        i = i + 1;
    }
    let ghost tok = tags_u8@.subrange(cur_start, tags_u8@.len() as int);
    proof {
        assert(tags_u8@.skip(cur_start) =~= tok);
        lemma_split_whole(tok);
        assert(split_bytes(tags_u8@) =~= done.push(tok));
        lemma_dedup_push(tokens_to_tags(done), token_of(tok));
        assert(tokens_to_tags(done.push(tok)) =~= tokens_to_tags(done).push(token_of(tok)));
    }
    let _ = res.insert(cur);
    proof {
        lemma_dedup_distinct(tokens_to_tags(split_bytes(tags_u8@)));
    }
    res
}

} // verus!
