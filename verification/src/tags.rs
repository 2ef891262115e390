//! The tag-set type: an insertion-ordered, duplicate-free collection of
//! string tags. The view is the sequence of tag contents in storage order;
//! set semantics are available through [`TagSet::tag_set`].

use vstd::prelude::*;

verus! {

/// Deduplication of a sequence, keeping the first occurrence of each element.
pub open spec fn dedup_seq<A>(s: Seq<A>) -> Seq<A>
    decreases s.len(),
{
    if s.len() == 0 {
        Seq::empty()
    } else {
        let rest = dedup_seq(s.drop_last());
        if rest.contains(s.last()) {
            rest
        } else {
            rest.push(s.last())
        }
    }
}

/// True when no element of `s` occurs twice.
pub open spec fn distinct_seq<A>(s: Seq<A>) -> bool {
    forall|i: int, j: int| 0 <= i < j < s.len() ==> s[i] != s[j]
}

/// `dedup_seq` keeps exactly the elements of its argument.
pub broadcast proof fn lemma_dedup_membership<A>(s: Seq<A>, x: A)
    ensures
        #[trigger] dedup_seq(s).contains(x) <==> s.contains(x),
    decreases s.len(),
{
    if s.len() > 0 {
        lemma_dedup_membership(s.drop_last(), x);
        let rest = dedup_seq(s.drop_last());
        let d = dedup_seq(s);
        if d.contains(x) {
            if rest.contains(s.last()) {
                let i = choose|i: int| 0 <= i < s.drop_last().len() && s.drop_last()[i] == x;
                assert(s[i] == x);
            } else {
                let i = choose|i: int| 0 <= i < d.len() && d[i] == x;
                if i < rest.len() {
                    assert(rest[i] == x);
                    let j = choose|j: int|
                        0 <= j < s.drop_last().len() && s.drop_last()[j] == x;
                    assert(s[j] == x);
                } else {
                    assert(s[s.len() - 1] == x);
                }
            }
        }
        if s.contains(x) {
            let i = choose|i: int| 0 <= i < s.len() && s[i] == x;
            if i < s.len() - 1 {
                assert(s.drop_last()[i] == x);
                if rest.contains(s.last()) {
                } else {
                    let j = choose|j: int| 0 <= j < rest.len() && rest[j] == x;
                    assert(d[j] == x);
                }
            } else {
                if rest.contains(s.last()) {
                    let j = choose|j: int| 0 <= j < rest.len() && rest[j] == s.last();
                    assert(d[j] == x);
                } else {
                    assert(d[rest.len() as int] == x);
                }
            }
        }
    }
}

/// `dedup_seq` never produces a duplicate.
pub broadcast proof fn lemma_dedup_distinct<A>(s: Seq<A>)
    ensures
        distinct_seq(#[trigger] dedup_seq(s)),
    decreases s.len(),
{
    if s.len() > 0 {
        lemma_dedup_distinct(s.drop_last());
        let rest = dedup_seq(s.drop_last());
        if !rest.contains(s.last()) {
            assert forall|i: int, j: int| 0 <= i < j < rest.push(s.last()).len() implies rest.push(
                s.last(),
            )[i] != rest.push(s.last())[j] by {
                if j == rest.len() {
                    assert(rest.contains(rest[i]));
                }
            }
        }
    }
}

/// Deduplication steps through a pushed element by a membership test on the
/// deduplicated prefix.
pub proof fn lemma_dedup_push<A>(s: Seq<A>, x: A)
    ensures
        dedup_seq(s.push(x)) == (if dedup_seq(s).contains(x) {
            dedup_seq(s)
        } else {
            dedup_seq(s).push(x)
        }),
{
    assert(s.push(x).drop_last() =~= s);
    assert(s.push(x).last() == x);
}

/// A sequence that is already duplicate-free is left unchanged.
pub proof fn lemma_dedup_of_distinct<A>(s: Seq<A>)
    requires
        distinct_seq(s),
    ensures
        dedup_seq(s) == s,
    decreases s.len(),
{
    if s.len() == 0 {
        assert(dedup_seq(s) =~= s);
    } else {
        assert(distinct_seq(s.drop_last()));
        lemma_dedup_of_distinct(s.drop_last());
        assert(!s.drop_last().contains(s.last()));
        lemma_dedup_membership(s.drop_last(), s.last());
        assert(dedup_seq(s) =~= s);
    }
}

/// Tag union in storage order: the existing tags, then the incoming ones
/// that are new, each kept once.
pub open spec fn union_seq<A>(existing: Seq<A>, incoming: Seq<A>) -> Seq<A> {
    dedup_seq(existing + incoming)
}

/// Tag difference in storage order: the existing tags with every member of
/// `removing` taken out; removing an absent element changes nothing.
pub open spec fn diff_seq<A>(existing: Seq<A>, removing: Seq<A>) -> Seq<A> {
    existing.filter(|t: A| !removing.contains(t))
}

/// Difference steps through a pushed element by one membership test.
pub proof fn lemma_diff_push<A>(s: Seq<A>, x: A, removing: Seq<A>)
    ensures
        diff_seq(s.push(x), removing) == (if removing.contains(x) {
            diff_seq(s, removing)
        } else {
            diff_seq(s, removing).push(x)
        }),
{
    reveal(Seq::filter);
    assert(s.push(x).drop_last() =~= s);
    assert(s.push(x).last() == x);
}

/// Difference keeps exactly the existing elements that are not removed.
pub broadcast proof fn lemma_diff_membership<A>(existing: Seq<A>, removing: Seq<A>, x: A)
    ensures
        #[trigger] diff_seq(existing, removing).contains(x) <==> existing.contains(x)
            && !removing.contains(x),
    decreases existing.len(),
{
    reveal(Seq::filter);
    let d = diff_seq(existing, removing);
    if existing.len() > 0 {
        lemma_diff_membership(existing.drop_last(), removing, x);
        let sub = diff_seq(existing.drop_last(), removing);
        if d.contains(x) {
            let i = choose|i: int| 0 <= i < d.len() && d[i] == x;
            if !removing.contains(existing.last()) && i == d.len() - 1 {
                assert(x == existing.last());
                assert(existing[existing.len() - 1] == x);
            } else {
                assert(sub[i] == x);
                let j = choose|j: int|
                    0 <= j < existing.drop_last().len() && existing.drop_last()[j] == x;
                assert(existing[j] == x);
            }
        }
        if existing.contains(x) && !removing.contains(x) {
            let i = choose|i: int| 0 <= i < existing.len() && existing[i] == x;
            if i < existing.len() - 1 {
                assert(existing.drop_last()[i] == x);
                let j = choose|j: int| 0 <= j < sub.len() && sub[j] == x;
                assert(d[j] == x);
            } else {
                assert(d[d.len() - 1] == x);
            }
        }
    }
}

/// Difference of a duplicate-free sequence is duplicate-free.
pub proof fn lemma_diff_distinct<A>(existing: Seq<A>, removing: Seq<A>)
    requires
        distinct_seq(existing),
    ensures
        distinct_seq(diff_seq(existing, removing)),
    decreases existing.len(),
{
    reveal(Seq::filter);
    if existing.len() > 0 {
        assert(distinct_seq(existing.drop_last()));
        lemma_diff_distinct(existing.drop_last(), removing);
        let sub = diff_seq(existing.drop_last(), removing);
        let d = diff_seq(existing, removing);
        if !removing.contains(existing.last()) {
            assert(d == sub.push(existing.last()));
            assert(!existing.drop_last().contains(existing.last()));
            lemma_diff_membership(existing.drop_last(), removing, existing.last());
            assert(!sub.contains(existing.last()));
            assert forall|i: int, j: int| 0 <= i < j < d.len() implies d[i] != d[j] by {
                if j == d.len() - 1 {
                    assert(sub.contains(sub[i]));
                }
            }
        }
    }
}

/// Merging elements that are all already present changes nothing.
pub proof fn lemma_dedup_absorb<A>(d: Seq<A>, inc: Seq<A>)
    requires
        distinct_seq(d),
        forall|i: int| 0 <= i < inc.len() ==> d.contains(#[trigger] inc[i]),
    ensures
        dedup_seq(d + inc) == d,
    decreases inc.len(),
{
    if inc.len() == 0 {
        assert(d + inc =~= d);
        lemma_dedup_of_distinct(d);
    } else {
        lemma_dedup_absorb(d, inc.drop_last());
        assert(d + inc =~= (d + inc.drop_last()).push(inc.last()));
        lemma_dedup_push(d + inc.drop_last(), inc.last());
        assert(d.contains(inc[inc.len() - 1]));
    }
}

/// Removing elements none of which are present changes nothing.
pub proof fn lemma_diff_all_kept<A>(existing: Seq<A>, removing: Seq<A>)
    requires
        forall|i: int| 0 <= i < existing.len() ==> !removing.contains(#[trigger] existing[i]),
    ensures
        diff_seq(existing, removing) == existing,
    decreases existing.len(),
{
    reveal(Seq::filter);
    if existing.len() > 0 {
        lemma_diff_all_kept(existing.drop_last(), removing);
        assert(!removing.contains(existing.last()));
        assert(diff_seq(existing, removing) =~= existing);
    }
}

/// Removing every present element leaves nothing.
pub proof fn lemma_diff_all_removed<A>(existing: Seq<A>, removing: Seq<A>)
    requires
        forall|i: int| 0 <= i < existing.len() ==> removing.contains(#[trigger] existing[i]),
    ensures
        diff_seq(existing, removing).len() == 0,
    decreases existing.len(),
{
    reveal(Seq::filter);
    if existing.len() > 0 {
        lemma_diff_all_removed(existing.drop_last(), removing);
        assert(removing.contains(existing.last()));
    }
}

/// Union holds exactly the members of either side: as sets, it is set union.
pub proof fn lemma_union_as_sets<A>(existing: Seq<A>, incoming: Seq<A>)
    ensures
        union_seq(existing, incoming).to_set() == existing.to_set() + incoming.to_set(),
{
    let u = union_seq(existing, incoming);
    assert forall|x: A| #[trigger] u.contains(x) implies existing.contains(x) || incoming.contains(
        x,
    ) by {
        lemma_dedup_membership(existing + incoming, x);
        let i = choose|i: int|
            0 <= i < (existing + incoming).len() && (existing + incoming)[i] == x;
        if i < existing.len() {
            assert(existing[i] == x);
        } else {
            assert(incoming[i - existing.len()] == x);
        }
    }
    assert forall|x: A| existing.contains(x) || incoming.contains(x) implies #[trigger] u.contains(
        x,
    ) by {
        lemma_dedup_membership(existing + incoming, x);
        if existing.contains(x) {
            let i = choose|i: int| 0 <= i < existing.len() && existing[i] == x;
            assert((existing + incoming)[i] == x);
        } else {
            let i = choose|i: int| 0 <= i < incoming.len() && incoming[i] == x;
            assert((existing + incoming)[existing.len() + i] == x);
        }
    }
    assert(union_seq(existing, incoming).to_set() =~= existing.to_set() + incoming.to_set());
}

/// Difference holds exactly the members of the left side that are not on the
/// right: as sets, it is set difference.
pub proof fn lemma_diff_as_sets<A>(existing: Seq<A>, removing: Seq<A>)
    ensures
        diff_seq(existing, removing).to_set() == existing.to_set().difference(removing.to_set()),
{
    assert forall|x: A| #[trigger] diff_seq(existing, removing).contains(x) <==> (existing.contains(
        x,
    ) && !removing.contains(x)) by {
        lemma_diff_membership(existing, removing, x);
    }
    assert(diff_seq(existing, removing).to_set() =~= existing.to_set().difference(
        removing.to_set(),
    ));
}

/// An unordered collection of string tags, held as an insertion-ordered,
/// duplicate-free sequence.
#[derive(Debug, PartialEq, Eq)]
pub struct TagSet {
    tags: Vec<String>,
}

impl View for TagSet {
    type V = Seq<Seq<char>>;

    closed spec fn view(&self) -> Seq<Seq<char>> {
        self.tags.deep_view()
    }
}

impl TagSet {
    /// Well-formedness: no tag occurs twice.
    pub open spec fn wf(&self) -> bool {
        distinct_seq(self@)
    }

    /// The tags as a mathematical set, forgetting insertion order.
    pub open spec fn tag_set(&self) -> Set<Seq<char>> {
        self@.to_set()
    }

    /// The empty tag set.
    pub fn new() -> (r: TagSet)
        ensures
            r@ == Seq::<Seq<char>>::empty(),
            r.wf(),
    {
        TagSet { tags: Vec::new() }
    }

    /// How many tags the set holds.
    pub fn len(&self) -> (r: usize)
        ensures
            r == self@.len(),
    {
        self.tags.len()
    }

    /// True when the set holds no tag.
    pub fn is_empty(&self) -> (r: bool)
        ensures
            r == (self@.len() == 0),
    {
        self.tags.is_empty()
    }

    /// A reference to the tag at the given position, in storage order.
    pub fn get(&self, i: usize) -> (r: &String)
        requires
            i < self@.len(),
        ensures
            r@ == self@[i as int],
    {
        &self.tags[i]
    }

    /// True when a tag with the given content is in the set.
    pub fn contains(&self, tag: &String) -> (r: bool)
        ensures
            r == self@.contains(tag@),
    {
        let mut i: usize = 0;
        assert(forall|j: int| 0 <= j < self@.len() ==> self@[j] == self.tags@[j]@);
        while i < self.tags.len()
            invariant
                i <= self@.len(),
                self@.len() == self.tags@.len(),
                forall|j: int| 0 <= j < self@.len() ==> self@[j] == self.tags@[j]@,
                forall|j: int| 0 <= j < i ==> self@[j] != tag@,
            decreases self@.len() - i,
        {
            if self.tags[i] == *tag {
                assert(self@[i as int] == tag@);
                return true;
            }
            i = i + 1;
        }
        false
    }

    /// Adds a tag unless one with the same content is already present.
    /// Returns true when the tag was new.
    pub fn insert(&mut self, tag: String) -> (r: bool)
        ensures
            old(self)@.contains(tag@) ==> final(self)@ == old(self)@ && !r,
            !old(self)@.contains(tag@) ==> final(self)@ == old(self)@.push(tag@) && r,
            old(self).wf() ==> final(self).wf(),
    {
        if self.contains(&tag) {
            false
        } else {
            let ghost pre = self@;
            self.tags.push(tag);
            assert(self@ =~= pre.push(tag@));
            true
        }
    }

    /// Set union: the tags of `self`, then those of `incoming` that are new,
    /// each kept once. Tags already present are not added again.
    pub fn union(&self, incoming: &TagSet) -> (r: TagSet)
        ensures
            r@ == union_seq(self@, incoming@),
            r.tag_set() == self.tag_set() + incoming.tag_set(),
            r.wf(),
    {
        let mut r = TagSet::new();
        let mut i: usize = 0;
        proof {
            assert(self@.take(0) =~= Seq::<Seq<char>>::empty());
        }
        while i < self.len()
            invariant
                i <= self@.len(),
                r@ == dedup_seq(self@.take(i as int)),
            decreases self@.len() - i,
        {
            proof {
                lemma_dedup_push(self@.take(i as int), self@[i as int]);
                assert(self@.take(i + 1) =~= self@.take(i as int).push(self@[i as int]));
            }
            let _ = r.insert(self.get(i).clone());
            i = i + 1;
        }
        proof {
            assert(self@.take(self@.len() as int) =~= self@);
            assert(self@ + incoming@.take(0) =~= self@);
        }
        let mut j: usize = 0;
        while j < incoming.len()
            invariant
                j <= incoming@.len(),
                r@ == dedup_seq(self@ + incoming@.take(j as int)),
            decreases incoming@.len() - j,
        {
            proof {
                lemma_dedup_push(self@ + incoming@.take(j as int), incoming@[j as int]);
                assert(self@ + incoming@.take(j + 1) =~= (self@ + incoming@.take(
                    j as int,
                )).push(incoming@[j as int]));
            }
            let _ = r.insert(incoming.get(j).clone());
            j = j + 1;
        }
        proof {
            assert(self@ + incoming@.take(incoming@.len() as int) =~= self@ + incoming@);
            lemma_dedup_distinct(self@ + incoming@);
            lemma_union_as_sets(self@, incoming@);
        }
        r
    }

    /// Set difference: the tags of `self` without those of `to_remove`, in
    /// their original order. Removing a tag that is not present changes
    /// nothing.
    pub fn difference(&self, to_remove: &TagSet) -> (r: TagSet)
        ensures
            r@ == diff_seq(self@, to_remove@),
            r.tag_set() == self.tag_set().difference(to_remove.tag_set()),
            self.wf() ==> r.wf(),
    {
        let mut out: Vec<String> = Vec::new();
        let mut i: usize = 0;
        proof {
            reveal(Seq::filter);
            assert(self@.take(0) =~= Seq::<Seq<char>>::empty());
            assert(out.deep_view() =~= diff_seq(self@.take(0), to_remove@));
        }
        while i < self.len()
            invariant
                i <= self@.len(),
                out.deep_view() == diff_seq(self@.take(i as int), to_remove@),
            decreases self@.len() - i,
        {
            let ghost pre = out.deep_view();
            proof {
                lemma_diff_push(self@.take(i as int), self@[i as int], to_remove@);
                assert(self@.take(i + 1) =~= self@.take(i as int).push(self@[i as int]));
            }
            if !to_remove.contains(self.get(i)) {
                out.push(self.get(i).clone());
                proof {
                    assert(out.deep_view() =~= pre.push(self@[i as int]));
                }
            }
            i = i + 1;
        }
        proof {
            assert(self@.take(self@.len() as int) =~= self@);
            lemma_diff_as_sets(self@, to_remove@);
            if self.wf() {
                lemma_diff_distinct(self@, to_remove@);
            }
        }
        let r = TagSet { tags: out };
        proof {
            assert(r@ =~= diff_seq(self@, to_remove@));
        }
        r
    }
}

/// Builds a tag set from borrowed string slices: duplicates collapse, and
/// first occurrences keep their order.
pub fn hash_set_str_to_hash_set_string(items: &Vec<&str>) -> (r: TagSet)
    ensures
        r@ == dedup_seq(items.deep_view()),
        r.wf(),
{
    let mut r = TagSet::new();
    let mut i: usize = 0;
    let ghost all = items.deep_view();
    proof {
        assert(all.take(0) =~= Seq::<Seq<char>>::empty());
    }
    while i < items.len()
        invariant
            i <= all.len(),
            all == items.deep_view(),
            all.len() == items@.len(),
            r@ == dedup_seq(all.take(i as int)),
        decreases all.len() - i,
    {
        proof {
            lemma_dedup_push(all.take(i as int), all[i as int]);
            assert(all.take(i + 1) =~= all.take(i as int).push(all[i as int]));
            assert(all[i as int] == items@[i as int]@);
        }
        let _ = r.insert(items[i].to_owned());
        i = i + 1;
    }
    proof {
        assert(all.take(all.len() as int) =~= all);
        lemma_dedup_distinct(all);
    }
    r
}

} // verus!
