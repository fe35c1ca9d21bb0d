//! Pointer threading: a field that refers to an object is swapped with the
//! object's tag word, so that the tag word heads a list of the fields that
//! refer to the object. Unthreading walks the list, writes the object's new
//! address into each field and puts the tag back.

use vstd::prelude::*;
use crate::experimental::{ExperimentalGC, Strategy};
use crate::memory::{with_word, word_at, word_in};
use crate::types::{skew, spec_skew, SkewedPtr, TAG_FREE_SPACE, TAG_ONE_WORD_FILLER};
use crate::visitor::{block_words, fields_end, fields_start, points_to_dynamic_heap, unskewed};

verus! {

/// The memory `m` after the field at `field` was threaded onto the object
/// at `t`: the field holds what the tag word held, the tag word holds the
/// field's address.
pub open spec fn threaded(m: Seq<u32>, field: int, t: int) -> Seq<u32> {
    with_word(with_word(m, field, word_at(m, t)), t, field as u32)
}

/// The memory `m` after `thread` was called on the field at `field`, in a
/// cycle whose collected generation starts at `start`: the field is
/// threaded onto the object it refers to where that object may move.
pub open spec fn after_thread(m: Seq<u32>, young: bool, start: int, field: int) -> Seq<u32> {
    if unskewed(word_at(m, field)) >= start || !young {
        threaded(m, field, unskewed(word_at(m, field)))
    } else {
        m
    }
}

/// The memory `m` after a pass over the object at `obj` came to the place
/// at `field`. The place is threaded where it holds a pointer into the
/// dynamic heap that the pass takes: one to `obj` or below for the
/// backward pass, one above `obj` for a forward pass.
pub open spec fn after_visit(
    m: Seq<u32>,
    base: int,
    young: bool,
    start: int,
    backward: bool,
    obj: int,
    field: int,
) -> Seq<u32> {
    let w = word_at(m, field);
    if points_to_dynamic_heap(w, base) && (unskewed(w) <= obj) == backward {
        after_thread(m, young, start, field)
    } else {
        m
    }
}

/// The memory `m` after a pass over the object at `obj` visited the places
/// from `first` up to `stop` in ascending order.
pub open spec fn after_visits(
    m: Seq<u32>,
    base: int,
    young: bool,
    start: int,
    backward: bool,
    obj: int,
    first: int,
    stop: int,
) -> Seq<u32>
    decreases stop - first,
{
    if stop - first < 4 {
        m
    } else {
        after_visit(
            after_visits(m, base, young, start, backward, obj, first, stop - 4),
            base,
            young,
            start,
            backward,
            obj,
            stop - 4,
        )
    }
}

/// The memory `m` after a forward pass over the blocks from `p` up to
/// `end`, one after the other: the places of each block are visited,
/// unless the block is a one-word filler or free space.
pub open spec fn after_walk(
    m: Seq<u32>,
    base: int,
    young: bool,
    start: int,
    p: int,
    end: int,
) -> Seq<u32>
    decreases end - p,
{
    if p >= end {
        m
    } else {
        let tag = word_at(m, p);
        let visited = if tag != TAG_ONE_WORD_FILLER && tag != TAG_FREE_SPACE {
            after_visits(
                m,
                base,
                young,
                start,
                false,
                p,
                p + 4 * fields_start(tag),
                p + 4 * fields_end(m, p),
            )
        } else {
            m
        };
        let next = p + 4 * block_words(visited, p);
        if next <= p || next > end {
            visited
        } else {
            after_walk(visited, base, young, start, next, end)
        }
    }
}

/// Whether the `i`-th field of the list `locs` holds the link to the field
/// before it, or, where it is the first, the word `tag`.
pub open spec fn chain_link(m: Seq<u32>, locs: Seq<int>, tag: u32, i: int) -> bool {
    word_at(m, locs[i]) == if i == 0 {
        tag
    } else {
        locs[i - 1] as u32
    }
}

/// Whether the tag word of the object at `obj` heads the list of the fields
/// at `locs`, the one threaded last being `locs.last()`, and the list ends
/// in the word `tag`, which is no address: it is odd.
pub open spec fn is_chain(m: Seq<u32>, obj: int, locs: Seq<int>, tag: u32) -> bool {
    &&& tag % 2 == 1
    &&& word_in(m.len(), obj)
    &&& word_at(m, obj) == if locs.len() == 0 {
        tag
    } else {
        locs.last() as u32
    }
    &&& forall|i: int|
        0 <= i < locs.len() ==> {
            &&& word_in(m.len(), #[trigger] locs[i])
            &&& locs[i] <= u32::MAX
            &&& locs[i] != obj
        }
    &&& forall|i: int| 0 <= i < locs.len() ==> #[trigger] chain_link(m, locs, tag, i)
    &&& forall|i: int, j: int| 0 <= i < j < locs.len() ==> locs[i] != locs[j]
}

/// Threading one more field onto an object puts the field at the end of
/// the object's list.
pub proof fn lemma_thread_extends_chain(
    m: Seq<u32>,
    obj: int,
    locs: Seq<int>,
    tag: u32,
    field: int,
)
    requires
        is_chain(m, obj, locs, tag),
        word_in(m.len(), field),
        field <= u32::MAX,
        field != obj,
        forall|i: int| 0 <= i < locs.len() ==> locs[i] != field,
    ensures
        is_chain(threaded(m, field, obj), obj, locs.push(field), tag),
{
    let m2 = threaded(m, field, obj);
    let l2 = locs.push(field);
    assert(field / 4 != obj / 4);
    assert forall|i: int| 0 <= i < l2.len() implies #[trigger] chain_link(m2, l2, tag, i) by {
        if i < locs.len() {
            assert(chain_link(m, locs, tag, i));
            assert(l2[i] == locs[i]);
            assert(word_in(m.len(), locs[i]));
            assert(locs[i] / 4 != field / 4);
            assert(locs[i] / 4 != obj / 4);
            if i > 0 {
                assert(l2[i - 1] == locs[i - 1]);
            }
        } else {
            if i > 0 {
                assert(l2[i - 1] == locs[i - 1]);
            }
        }
    }
    assert forall|i: int| 0 <= i < l2.len() implies {
        &&& word_in(m2.len(), #[trigger] l2[i])
        &&& l2[i] <= u32::MAX
        &&& l2[i] != obj
    } by {
        if i < locs.len() {
            assert(l2[i] == locs[i]);
        }
    }
}

/// Threading and unthreading undo each other. Where the field at `field`
/// is threaded onto the object at `obj`, which has the list `locs` and the
/// tag `tag`, and the object is then unthreaded with the new address
/// `value`, the field holds `value`, and so does every field that was on
/// the list before; the object has its tag back; every other word is as it
/// was before the field was threaded.
pub proof fn lemma_thread_unthread(
    m: Seq<u32>,
    obj: int,
    locs: Seq<int>,
    tag: u32,
    field: int,
    value: u32,
    a: int,
)
    requires
        is_chain(m, obj, locs, tag),
        word_in(m.len(), field),
        field <= u32::MAX,
        field != obj,
        forall|i: int| 0 <= i < locs.len() ==> locs[i] != field,
        word_in(m.len(), a),
    ensures
        word_at(unthreaded(threaded(m, field, obj), obj, locs.push(field), tag, value), a) == if a
            == obj {
            tag
        } else if a == field || locs.contains(a) {
            value
        } else {
            word_at(m, a)
        },
{
    let m2 = threaded(m, field, obj);
    let l2 = locs.push(field);
    lemma_thread_extends_chain(m, obj, locs, tag, field);
    lemma_unthreaded(m2, obj, l2, tag, value, a);
    assert(l2[locs.len() as int] == field);
    if locs.contains(a) {
        let i = choose|i: int| 0 <= i < locs.len() && locs[i] == a;
        assert(l2[i] == a);
    }
    if l2.contains(a) && a != field {
        let i = choose|i: int| 0 <= i < l2.len() && l2[i] == a;
        assert(locs[i] == a);
    }
    if a != obj && a != field {
        assert(a / 4 != obj / 4);
        assert(a / 4 != field / 4);
    }
}

impl ExperimentalGC {
    /// Whether the object at `obj` may move in this cycle, so that the
    /// fields that refer to it have to be threaded.
    pub fn should_be_threaded(&self, obj: u32) -> (r: bool)
        ensures
            r == (obj >= self.scope_start() || !self.young()),
            !self.young() ==> r,
    {
        match self.strategy {
            Strategy::Young => obj >= self.heap.limits.last_free,
            Strategy::Full => true,
        }
    }

    /// Threads the field at `field` onto the object that it refers to,
    /// where that object may move.
    pub fn thread(&mut self, field: u32)
        requires
            word_in(old(self).heap@.m.len(), field as int),
            unskewed(word_at(old(self).heap@.m, field as int)) >= old(self).scope_start() || !old(
                self,
            ).young() ==> word_in(
                old(self).heap@.m.len(),
                unskewed(word_at(old(self).heap@.m, field as int)),
            ),
        ensures
            final(self).heap@.m == if unskewed(word_at(old(self).heap@.m, field as int)) >= old(
                self,
            ).scope_start() || !old(self).young() {
                threaded(
                    old(self).heap@.m,
                    field as int,
                    unskewed(word_at(old(self).heap@.m, field as int)),
                )
            } else {
                old(self).heap@.m
            },
            final(self).heap.limits == old(self).heap.limits,
            final(self).heap.roots == old(self).heap.roots,
            final(self).remembered_set == old(self).remembered_set,
            final(self).strategy == old(self).strategy,
            final(self).marked_space == old(self).marked_space,
            final(self).bitmap == old(self).bitmap,
            final(self).mark_stack == old(self).mark_stack,
    {
        let pointed: u32 = SkewedPtr(self.heap.mem.load(field)).unskew();
        if self.should_be_threaded(pointed) {
            let pointed_header: u32 = self.heap.mem.load(pointed);
            self.heap.mem.store(field, pointed_header);
            self.heap.mem.store(pointed, field);
        }
    }

    /// Writes the address `new_loc`, skewed, into every field of the list
    /// that the tag word of the object at `obj` heads, and puts the
    /// object's tag back. Every other word stays. The object is one that
    /// may move in this cycle.
    pub fn unthread(&mut self, obj: u32, new_loc: u32)
        requires
            obj >= old(self).scope_start() || !old(self).young(),
            exists|locs: Seq<int>, tag: u32| is_chain(old(self).heap@.m, obj as int, locs, tag),
        ensures
            forall|locs: Seq<int>, tag: u32|
                is_chain(old(self).heap@.m, obj as int, locs, tag) ==> final(self).heap@.m
                    == unthreaded(
                    old(self).heap@.m,
                    obj as int,
                    locs,
                    tag,
                    spec_skew(new_loc).0,
                ),
            final(self).heap.limits == old(self).heap.limits,
            final(self).heap.roots == old(self).heap.roots,
            final(self).remembered_set == old(self).remembered_set,
            final(self).strategy == old(self).strategy,
            final(self).marked_space == old(self).marked_space,
            final(self).bitmap == old(self).bitmap,
            final(self).mark_stack == old(self).mark_stack,
    {
        let ghost (locs, tag) = choose|locs: Seq<int>, tag: u32|
            is_chain(self.heap@.m, obj as int, locs, tag);
        proof {
            assert forall|l2: Seq<int>, t2: u32|
                is_chain(self.heap@.m, obj as int, l2, t2) implies l2 == locs && t2 == tag by {
                lemma_chain_unique(self.heap@.m, obj as int, locs, tag, l2, t2);
            }
        }
        self.unthread_list(obj, new_loc, Ghost(locs), Ghost(tag));
    }

    /// Unthreads the object at `obj`, whose list is `locs` and whose tag
    /// is `tag`.
    #[verifier::rlimit(40)]
    pub(crate) fn unthread_list(
        &mut self,
        obj: u32,
        new_loc: u32,
        Ghost(locs): Ghost<Seq<int>>,
        Ghost(tag): Ghost<u32>,
    )
        requires
            is_chain(old(self).heap@.m, obj as int, locs, tag),
        ensures
            final(self).heap@.m == unthreaded(
                old(self).heap@.m,
                obj as int,
                locs,
                tag,
                spec_skew(new_loc).0,
            ),
            final(self).heap.limits == old(self).heap.limits,
            final(self).heap.roots == old(self).heap.roots,
            final(self).remembered_set == old(self).remembered_set,
            final(self).strategy == old(self).strategy,
            final(self).marked_space == old(self).marked_space,
            final(self).bitmap == old(self).bitmap,
            final(self).mark_stack == old(self).mark_stack,
    {
        let mut header: u32 = self.heap.mem.load(obj);
        let ghost mut n: int = locs.len() as int;
        let ghost m0 = self.heap@.m;
        let value: u32 = skew(new_loc).0;
        while header & 1 == 0
            invariant
                0 <= n <= locs.len(),
                is_chain(m0, obj as int, locs, tag),
                header == if n == 0 {
                    tag
                } else {
                    locs[n - 1] as u32
                },
                self.heap@.m == written(m0, locs, n, value),
                self.heap.limits == old(self).heap.limits,
                self.heap.roots == old(self).heap.roots,
                self.remembered_set == old(self).remembered_set,
                self.strategy == old(self).strategy,
                self.marked_space == old(self).marked_space,
                self.bitmap == old(self).bitmap,
                self.mark_stack == old(self).mark_stack,
            decreases n,
        {
            assert(header & 1 == 0 <==> header % 2 == 0) by (bit_vector);
            proof {
                assert(n > 0);
                assert(chain_link(m0, locs, tag, n - 1));
                lemma_written(m0, obj as int, locs, tag, n, value, locs[n - 1]);
            }
            let tmp: u32 = self.heap.mem.load(header);
            self.heap.mem.store(header, value);
            header = tmp;
            proof {
                n = n - 1;
            }
        }
        assert(header & 1 == 0 <==> header % 2 == 0) by (bit_vector);
        proof {
            lemma_written(m0, obj as int, locs, tag, n, value, obj as int);
        }
        self.heap.mem.store(obj, header);
    }
}

/// Two lists at the same tag word agree from their ends.
pub proof fn lemma_chain_ends_agree(
    m: Seq<u32>,
    obj: int,
    l1: Seq<int>,
    t1: u32,
    l2: Seq<int>,
    t2: u32,
    i: int,
)
    requires
        is_chain(m, obj, l1, t1),
        is_chain(m, obj, l2, t2),
        0 <= i < l1.len(),
        i < l2.len(),
    ensures
        l1[l1.len() - 1 - i] == l2[l2.len() - 1 - i],
    decreases i,
{
    let a = l1.len() - 1 - i;
    let b = l2.len() - 1 - i;
    assert(word_in(m.len(), l1[a]));
    assert(word_in(m.len(), l2[b]));
    if i > 0 {
        lemma_chain_ends_agree(m, obj, l1, t1, l2, t2, i - 1);
        assert(chain_link(m, l1, t1, a + 1));
        assert(chain_link(m, l2, t2, b + 1));
    }
}

/// The tag word of an object heads one list at most.
pub proof fn lemma_chain_unique(m: Seq<u32>, obj: int, l1: Seq<int>, t1: u32, l2: Seq<int>, t2: u32)
    requires
        is_chain(m, obj, l1, t1),
        is_chain(m, obj, l2, t2),
    ensures
        l1 == l2,
        t1 == t2,
{
    let n1 = l1.len() as int;
    let n2 = l2.len() as int;
    lemma_chain_short(m, obj, l1, t1, l2, t2);
    lemma_chain_short(m, obj, l2, t2, l1, t1);
    {
        assert forall|k: int| 0 <= k < n1 implies l1[k] == l2[k] by {
            lemma_chain_ends_agree(m, obj, l1, t1, l2, t2, n1 - 1 - k);
        }
        assert(l1 =~= l2);
        if n1 > 0 {
            assert(chain_link(m, l1, t1, 0));
            assert(chain_link(m, l2, t2, 0));
        }
    }
}

/// Of two lists at a tag word none is shorter: where a shorter one would
/// end in the odd tag, the longer one goes on with the even address of a
/// field.
proof fn lemma_chain_short(m: Seq<u32>, obj: int, l1: Seq<int>, t1: u32, l2: Seq<int>, t2: u32)
    requires
        is_chain(m, obj, l1, t1),
        is_chain(m, obj, l2, t2),
    ensures
        l1.len() >= l2.len(),
{
    let n1 = l1.len() as int;
    let n2 = l2.len() as int;
    if n1 < n2 {
        let b = n2 - n1;
        assert(word_in(m.len(), l2[b - 1]));
        if n1 == 0 {
            assert(l2[b - 1] == l2.last());
        } else {
            lemma_chain_ends_agree(m, obj, l1, t1, l2, t2, n1 - 1);
            assert(chain_link(m, l1, t1, 0));
            assert(chain_link(m, l2, t2, b));
        }
    }
}

/// The memory `m` with `value` in each of the words at `locs[n..]`.
pub open spec fn written(m: Seq<u32>, locs: Seq<int>, n: int, value: u32) -> Seq<u32>
    decreases locs.len() - n,
{
    if n >= locs.len() || n < 0 {
        m
    } else {
        with_word(written(m, locs, n + 1, value), locs[n], value)
    }
}

/// The memory `m` after the list `locs` of the object at `obj` was
/// unthreaded: `value` in each field of the list, `tag` in the tag word.
pub open spec fn unthreaded(m: Seq<u32>, obj: int, locs: Seq<int>, tag: u32, value: u32) -> Seq<
    u32,
> {
    with_word(written(m, locs, 0, value), obj, tag)
}

/// Writing into fields of a list leaves the other words, and the length.
pub proof fn lemma_written(
    m: Seq<u32>,
    obj: int,
    locs: Seq<int>,
    tag: u32,
    n: int,
    value: u32,
    a: int,
)
    requires
        is_chain(m, obj, locs, tag),
        0 <= n <= locs.len(),
        word_in(m.len(), a),
    ensures
        written(m, locs, n, value).len() == m.len(),
        (forall|i: int| n <= i < locs.len() ==> locs[i] != a) ==> word_at(
            written(m, locs, n, value),
            a,
        ) == word_at(m, a),
        (exists|i: int| n <= i < locs.len() && locs[i] == a) ==> word_at(
            written(m, locs, n, value),
            a,
        ) == value,
    decreases locs.len() - n,
{
    if n < locs.len() {
        lemma_written(m, obj, locs, tag, n + 1, value, a);
        assert(word_in(m.len(), locs[n]));
        if locs[n] != a {
            assert(locs[n] / 4 != a / 4);
            if exists|i: int| n <= i < locs.len() && locs[i] == a {
                let i = choose|i: int| n <= i < locs.len() && locs[i] == a;
                assert(n + 1 <= i);
            }
        }
    }
}

/// After unthreading, every field of the list holds the new address, the
/// tag word holds the tag, and every other word is as before.
pub proof fn lemma_unthreaded(
    m: Seq<u32>,
    obj: int,
    locs: Seq<int>,
    tag: u32,
    value: u32,
    a: int,
)
    requires
        is_chain(m, obj, locs, tag),
        word_in(m.len(), a),
    ensures
        unthreaded(m, obj, locs, tag, value).len() == m.len(),
        word_at(unthreaded(m, obj, locs, tag, value), a) == if a == obj {
            tag
        } else if locs.contains(a) {
            value
        } else {
            word_at(m, a)
        },
{
    lemma_written(m, obj, locs, tag, 0, value, a);
    if a != obj {
        assert(a / 4 != obj / 4);
        if locs.contains(a) {
            let i = choose|i: int| 0 <= i < locs.len() && locs[i] == a;
            assert(0 <= i < locs.len() && locs[i] == a);
        }
    }
}

} // verus!
