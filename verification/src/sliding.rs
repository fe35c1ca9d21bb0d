//! The passes of the sliding compaction: threading of backward pointers
//! and roots, then the pass that unthreads, moves and threads forward
//! pointers, object by object in ascending order.

use vstd::prelude::*;
use crate::bitmap::{BitmapIter, BITMAP_ITER_END};
use crate::compaction::{slid, Compaction, Progress};
use crate::reachability::marked_bytes;
use crate::experimental::{ExperimentalGC, Strategy};
use crate::heap::HeapModel;
use crate::memory::word_at;
use crate::threading::{
    after_thread, after_visit, after_visits, after_walk, threaded, unthreaded,
};
use crate::types::{
    skew, spec_skew, Array, SkewedPtr, Tag, TAG_FREE_SPACE, TAG_ONE_WORD_FILLER, WORD_SIZE,
};
use crate::visitor::{
    block_words, fields_end, fields_start, is_object_tag, object_size, pointer_fields,
    pointer_to_dynamic_heap, points_to_dynamic_heap, value_is_ptr,
};

verus! {

impl ExperimentalGC {
    /// Whether the cycle is in the compaction `c`, as far as `pr` says.
    pub closed spec fn compacting(&self, c: Compaction, pr: Progress) -> bool {
        &&& c.wf()
        &&& c.inv(pr, self.heap@.m)
        &&& self.heap@ == (HeapModel { m: self.heap@.m, ..c.h0 })
        &&& self.bitmap == c.marks
        &&& self.bitmap.well_formed()
        &&& self.young() == c.young
    }

    /// A cycle whose mark phase is over stands at the start of a
    /// compaction.
    pub proof fn lemma_enter_compaction(&self, c: Compaction)
        requires
            c.wf(),
            c.h0 == self.heap@,
            c.marks == self.bitmap,
            self.bitmap.well_formed(),
            c.young == self.young(),
        ensures
            self.compacting(c, c.start()),
    {
        c.lemma_start();
    }

    /// What a cycle that is in a compaction has kept: the anchors and the
    /// roots of the heap, the mark bits and the strategy.
    pub proof fn lemma_in_compaction(&self, c: Compaction, pr: Progress)
        requires
            self.compacting(c, pr),
        ensures
            c.inv(pr, self.heap@.m),
            self.heap@ == (HeapModel { m: self.heap@.m, ..c.h0 }),
            self.bitmap == c.marks,
            self.young() == c.young,
    {
    }

    /// Threads the pointers of the marked object at `obj` that refer to the
    /// object itself or to an object below it.
    #[verifier::rlimit(60)]
    pub(crate) fn thread_backward_pointer_fields(
        &mut self,
        obj: u32,
        obj_tag: Tag,
        Ghost(c): Ghost<Compaction>,
        Ghost(pr): Ghost<Progress>,
    ) -> (r: Ghost<Progress>)
        requires
            old(self).compacting(c, pr),
            c.is_marked(obj as int),
            pr == (Progress { back: obj as int, back_cur: 0, chains: pr.chains, ..c.start() }),
            obj_tag == word_at(c.h0.m, obj as int),
            word_at(old(self).heap@.m, obj as int) == obj_tag,
        ensures
            final(self).compacting(c, r@),
            r@ == (Progress {
                back_cur: obj + 4 * block_words(c.h0.m, obj as int),
                chains: r@.chains,
                ..pr
            }),
            final(self).heap@.m == after_visits(
                old(self).heap@.m,
                old(self).heap@.base,
                old(self).young(),
                old(self).scope_start(),
                true,
                obj as int,
                obj + 4 * fields_start(obj_tag),
                obj + 4 * fields_end(old(self).heap@.m, obj as int),
            ),
            final(self).remembered_set == old(self).remembered_set,
            final(self).marked_space == old(self).marked_space,
            final(self).mark_stack == old(self).mark_stack,
    {
        let ghost m0 = self.heap@.m;
        proof {
            c.lemma_marked_block(obj as int);
            c.lemma_shape(pr, m0, obj as int);
        }
        let (first, stop) = pointer_fields(&self.heap.mem, obj, obj_tag, 0xFFFF_FFFF);
        let base: u32 = self.heap.limits.base;
        let ghost mut cur: Progress = Progress { back_cur: first as int, ..pr };
        proof {
            c.lemma_back_cursor(pr, cur, m0, obj as int);
        }
        let mut f: u32 = first;
        while f < stop
            invariant
                self.heap@.m == after_visits(
                    m0,
                    base as int,
                    self.young(),
                    self.scope_start(),
                    true,
                    obj as int,
                    first as int,
                    f as int,
                ),
                self.young() == old(self).young(),
                self.scope_start() == old(self).scope_start(),
                first % 4 == 0,
                first <= f,
                f <= stop || f == first,
                self.compacting(c, cur),
                c.is_marked(obj as int),
                cur == (Progress {
                    back: obj as int,
                    back_cur: f as int,
                    chains: cur.chains,
                    ..c.start()
                }),
                base == c.h0.base,
                f % 4 == 0,
                stop % 4 == 0,
                obj + 4 * fields_start(word_at(c.h0.m, obj as int)) <= f,
                stop <= obj + 4 * fields_end(c.h0.m, obj as int),
                stop <= obj + 4 * block_words(c.h0.m, obj as int),
                self.remembered_set == old(self).remembered_set,
                self.marked_space == old(self).marked_space,
                self.mark_stack == old(self).mark_stack,
            decreases stop - f,
        {
            let ghost m = self.heap@.m;
            let ghost next: Progress = if c.live(obj as int, f as int) && c.target(f as int)
                <= obj {
                c.pushed(Progress { back_cur: f + 4, ..cur }, obj as int, f as int)
            } else {
                Progress { back_cur: f + 4, ..cur }
            };
            proof {
                c.lemma_back_visit(cur, next, m, obj as int, f as int);
            }
            if pointer_to_dynamic_heap(&self.heap.mem, f, base) {
                let v: u32 = self.heap.mem.load(f);
                if SkewedPtr(v).unskew() <= obj {
                    self.thread(f);
                }
            }
            proof {
                cur = next;
                assert(self.heap@.m == after_visit(
                    m,
                    base as int,
                    self.young(),
                    self.scope_start(),
                    true,
                    obj as int,
                    f as int,
                ));
            }
            f += 4;
        }
        let ghost last: Progress = Progress {
            back_cur: obj + 4 * block_words(c.h0.m, obj as int),
            ..cur
        };
        proof {
            c.lemma_back_cursor(cur, last, self.heap@.m, obj as int);
        }
        Ghost(last)
    }

    /// The first pass: threads the backward pointers of every marked
    /// object, in ascending order of address.
    #[verifier::rlimit(40)]
    pub(crate) fn thread_all_backward_pointers(&mut self, Ghost(c): Ghost<Compaction>) -> (r: Ghost<
        Progress,
    >)
        requires
            old(self).compacting(c, c.start()),
        ensures
            final(self).compacting(c, r@),
            r@ == (Progress { back: c.h0.free, back_cur: 0, chains: r@.chains, ..c.start() }),
            final(self).remembered_set == old(self).remembered_set,
            final(self).marked_space == old(self).marked_space,
            final(self).mark_stack == old(self).mark_stack,
    {
        proof {
            c.lemma_starts();
        }
        let mut bitmap_iter: BitmapIter = self.bitmap.iter_bits();
        if self.strategy == Strategy::Young {
            bitmap_iter.advance(self.heap.limits.last_free / WORD_SIZE);
        }
        let mut bit: u32 = bitmap_iter.next(&self.bitmap);
        let ghost mut cur: Progress = Progress { back: position(c, bit), ..c.start() };
        proof {
            assert forall|t: int| #[trigger] c.is_marked(t) implies t >= position(c, bit) by {
                c.lemma_marked_block(t);
            }
            c.lemma_back_jump(c.start(), cur, self.heap@.m);
        }
        while bit != BITMAP_ITER_END
            invariant
                self.compacting(c, cur),
                cur == (Progress {
                    back: position(c, bit),
                    back_cur: 0,
                    chains: cur.chains,
                    ..c.start()
                }),
                bit != BITMAP_ITER_END ==> c.marks.is_set(bit as int) && bitmap_iter.pos() == bit
                    + 1,
                c.marks.base() + c.marks.len() < 0x4000_0000,
                self.remembered_set == old(self).remembered_set,
                self.marked_space == old(self).marked_space,
                self.mark_stack == old(self).mark_stack,
            decreases c.h0.free - position(c, bit),
        {
            proof {
                assert(c.is_marked(4 * bit));
                c.lemma_marked_block(4 * bit);
                c.lemma_tag_in_place(cur, self.heap@.m, 4 * bit);
            }
            let obj: u32 = bit * WORD_SIZE;
            let tag: Tag = self.heap.mem.load(obj);
            let done = self.thread_backward_pointer_fields(obj, tag, Ghost(c), Ghost(cur));
            let next_bit: u32 = bitmap_iter.next(&self.bitmap);
            proof {
                let ghost after: Progress = Progress {
                    back: position(c, next_bit),
                    back_cur: 0,
                    ..done@
                };
                assert forall|t: int| #[trigger] c.is_marked(t) implies (t < after.back) == (t
                    < obj || t == obj) by {
                    c.lemma_marked_block(t);
                    if t > obj {
                        assert(t / 4 >= bit + 1);
                    }
                }
                c.lemma_back_jump(done@, after, self.heap@.m);
                cur = after;
                if next_bit != BITMAP_ITER_END {
                    assert(c.is_marked(4 * next_bit));
                    c.lemma_marked_block(4 * next_bit);
                }
            }
            bit = next_bit;
        }
        Ghost(cur)
    }

    /// Threads the field of the static root box at `mutbox` where it holds
    /// a pointer into the dynamic heap.
    pub(crate) fn thread_root_mutbox_fields(
        &mut self,
        mutbox: u32,
        Ghost(c): Ghost<Compaction>,
        Ghost(pr): Ghost<Progress>,
        Ghost(i): Ghost<int>,
    ) -> (r: Ghost<Progress>)
        requires
            old(self).compacting(c, pr),
            0 <= i < c.h0.root_count(),
            mutbox == c.h0.root_box(i),
            pr.ut == c.lo(),
        ensures
            final(self).compacting(c, r@),
            r@ == (Progress {
                statics: pr.statics.insert(c.h0.root_field(i)),
                chains: r@.chains,
                ..pr
            }),
            final(self).heap@.m == if points_to_dynamic_heap(
                word_at(old(self).heap@.m, mutbox + 8),
                old(self).heap@.base,
            ) {
                after_thread(
                    old(self).heap@.m,
                    old(self).young(),
                    old(self).scope_start(),
                    mutbox + 8,
                )
            } else {
                old(self).heap@.m
            },
            final(self).remembered_set == old(self).remembered_set,
            final(self).marked_space == old(self).marked_space,
            final(self).mark_stack == old(self).mark_stack,
    {
        let ghost l = c.h0.root_field(i);
        let ghost next: Progress = if c.live(0, l) && !pr.statics.contains(l) {
            c.pushed(Progress { statics: pr.statics.insert(l), ..pr }, 0, l)
        } else {
            Progress { statics: pr.statics.insert(l), ..pr }
        };
        proof {
            c.lemma_root_array(pr, self.heap@.m, i);
            c.lemma_static_visit(pr, next, self.heap@.m, l);
        }
        let field_addr: u32 = mutbox + 2 * WORD_SIZE;
        if pointer_to_dynamic_heap(&self.heap.mem, field_addr, self.heap.limits.base) {
            // Forward pointers are threaded here too: the static boxes do
            // not move, so the fields stay where the lists expect them.
            self.thread(field_addr);
        }
        Ghost(next)
    }

    /// Threads the fields of the static root boxes.
    #[verifier::rlimit(40)]
    pub(crate) fn thread_static_roots(
        &mut self,
        Ghost(c): Ghost<Compaction>,
        Ghost(pr): Ghost<Progress>,
    ) -> (r: Ghost<Progress>)
        requires
            old(self).compacting(c, pr),
            pr.ut == c.lo(),
            pr.statics == Set::<int>::empty(),
        ensures
            final(self).compacting(c, r@),
            r@ == (Progress { statics: r@.statics, chains: r@.chains, ..pr }),
            forall|i: int| 0 <= i < c.h0.root_count() ==> r@.statics.contains(c.h0.root_field(i)),
            !r@.statics.contains(c.h0.cont_loc),
            final(self).remembered_set == old(self).remembered_set,
            final(self).marked_space == old(self).marked_space,
            final(self).mark_stack == old(self).mark_stack,
    {
        proof {
            c.lemma_root_array(pr, self.heap@.m, -1);
        }
        let root_array: u32 = self.heap.roots.static_roots.unskew();
        let len: u32 = Array::len(&self.heap.mem, root_array);
        let ghost mut cur: Progress = pr;
        let mut i: u32 = 0;
        while i < len
            invariant
                self.compacting(c, cur),
                cur == (Progress { statics: cur.statics, chains: cur.chains, ..pr }),
                pr.ut == c.lo(),
                forall|j: int| 0 <= j < i ==> cur.statics.contains(c.h0.root_field(j)),
                !cur.statics.contains(c.h0.cont_loc),
                i <= len,
                len == c.h0.root_count(),
                root_array == c.h0.root_array,
                root_array + 12 + 4 * len <= c.h0.base,
                self.remembered_set == old(self).remembered_set,
                self.marked_space == old(self).marked_space,
                self.mark_stack == old(self).mark_stack,
            decreases len - i,
        {
            proof {
                c.lemma_root_array(cur, self.heap@.m, i as int);
            }
            let mutbox: u32 = Array::get(&self.heap.mem, root_array, i).unskew();
            let next = self.thread_root_mutbox_fields(
                mutbox,
                Ghost(c),
                Ghost(cur),
                Ghost(i as int),
            );
            proof {
                cur = next@;
            }
            i += 1;
        }
        Ghost(cur)
    }

    /// The passes before any object moves: threads the backward pointers
    /// of the marked objects, then the fields of the static root boxes and
    /// the continuation-table word. The roots come last because all their
    /// pointers are threaded, forward ones too.
    pub(crate) fn thread_backward_phase(&mut self, Ghost(c): Ghost<Compaction>) -> (r: Ghost<
        Progress,
    >)
        requires
            old(self).compacting(c, c.start()),
        ensures
            final(self).compacting(c, r@),
            r@ == (Progress {
                back: c.h0.free,
                statics: r@.statics,
                chains: r@.chains,
                ..c.start()
            }),
            forall|l: int| c.static_slot(l) ==> r@.statics.contains(l),
            final(self).remembered_set == old(self).remembered_set,
            final(self).marked_space == old(self).marked_space,
            final(self).mark_stack == old(self).mark_stack,
    {
        let threaded_back = self.thread_all_backward_pointers(Ghost(c));
        let rooted = self.thread_static_roots(Ghost(c), threaded_back);
        let ghost l = c.h0.cont_loc;
        let ghost pr = rooted@;
        let ghost next: Progress = if c.live(0, l) {
            c.pushed(Progress { statics: pr.statics.insert(l), ..pr }, 0, l)
        } else {
            Progress { statics: pr.statics.insert(l), ..pr }
        };
        proof {
            c.lemma_static_visit(pr, next, self.heap@.m, l);
        }
        let loc: u32 = self.heap.roots.continuation_table_ptr_loc;
        if value_is_ptr(self.heap.mem.load(loc)) {
            self.thread(loc);
        }
        Ghost(next)
    }

    /// Threads the pointers of the object at `obj` that refer to objects
    /// above it. The object is a block of the old generation, or a marked
    /// object at its new address; `a` is where it was when compaction
    /// began.
    #[verifier::rlimit(60)]
    pub(crate) fn thread_fwd_pointers(
        &mut self,
        obj: u32,
        Ghost(a): Ghost<int>,
        Ghost(c): Ghost<Compaction>,
        Ghost(pr): Ghost<Progress>,
    ) -> (r: Ghost<Progress>)
        requires
            old(self).compacting(c, pr),
            obj == c.cur(pr, a, a),
            pr.back == c.h0.free,
            if c.old_block(a) {
                is_object_tag(word_at(c.h0.m, a)) && pr.old == a && pr.old_cur == 0 && pr.ut
                    == c.lo()
            } else {
                c.is_marked(a) && pr.fwd == a && pr.fwd_cur == 0 && pr.ut == a + 4 && pr.mv == a
                    + 4
            },
        ensures
            final(self).compacting(c, r@),
            r@ == c.forward_cursor(
                Progress { chains: r@.chains, ..pr },
                a,
                a + 4 * block_words(c.h0.m, a),
            ),
            final(self).heap@.m == after_visits(
                old(self).heap@.m,
                old(self).heap@.base,
                old(self).young(),
                old(self).scope_start(),
                false,
                obj as int,
                obj + 4 * fields_start(word_at(old(self).heap@.m, obj as int)),
                obj + 4 * fields_end(old(self).heap@.m, obj as int),
            ),
            final(self).remembered_set == old(self).remembered_set,
            final(self).marked_space == old(self).marked_space,
            final(self).mark_stack == old(self).mark_stack,
    {
        let ghost m0 = self.heap@.m;
        proof {
            c.lemma_tag_intact(pr, self.heap@.m, a);
            c.lemma_shape(pr, self.heap@.m, a);
            if c.is_marked(a) {
                c.lemma_marked_block(a);
            }
            c.lemma_holder_block(a);
            c.lemma_extent(pr, a, a);
        }
        let tag: Tag = self.heap.mem.load(obj);
        let (first, stop) = pointer_fields(&self.heap.mem, obj, tag, 0xFFFF_FFFF);
        let base: u32 = self.heap.limits.base;
        let ghost mut cur: Progress = c.forward_cursor(pr, a, first - obj + a);
        proof {
            c.lemma_forward_cursor(pr, cur, self.heap@.m, a);
        }
        let mut f: u32 = first;
        while f < stop
            invariant
                self.heap@.m == after_visits(
                    m0,
                    base as int,
                    self.young(),
                    self.scope_start(),
                    false,
                    obj as int,
                    first as int,
                    f as int,
                ),
                self.young() == old(self).young(),
                self.scope_start() == old(self).scope_start(),
                first % 4 == 0,
                first <= f,
                f <= stop || f == first,
                self.compacting(c, cur),
                cur == c.forward_cursor(Progress { chains: cur.chains, ..pr }, a, f - obj + a),
                obj == c.cur(pr, a, a),
                pr.back == c.h0.free,
                if c.old_block(a) {
                    is_object_tag(word_at(c.h0.m, a)) && pr.old == a && pr.ut == c.lo()
                } else {
                    c.is_marked(a) && pr.fwd == a && pr.ut == a + 4 && pr.mv == a + 4
                },
                base == c.h0.base,
                f % 4 == 0,
                stop % 4 == 0,
                obj % 4 == 0,
                a % 4 == 0,
                obj <= a,
                obj + 4 * fields_start(word_at(c.h0.m, a)) <= f,
                stop <= obj + 4 * fields_end(c.h0.m, a),
                stop <= obj + 4 * block_words(c.h0.m, a),
                self.remembered_set == old(self).remembered_set,
                self.marked_space == old(self).marked_space,
                self.mark_stack == old(self).mark_stack,
            decreases stop - f,
        {
            let ghost m = self.heap@.m;
            let ghost l = f - obj + a;
            let ghost next: Progress = if c.live(a, l) && c.target(l) > a {
                c.pushed(c.forward_cursor(cur, a, l + 4), a, l)
            } else {
                c.forward_cursor(cur, a, l + 4)
            };
            proof {
                c.lemma_forward_read(cur, m, a, l);
                c.lemma_forward_visit(cur, next, m, a, l);
                assert(c.cur(cur, a, a) == obj);
                assert(c.cur(cur, a, l) == f);
            }
            if pointer_to_dynamic_heap(&self.heap.mem, f, base) {
                let v: u32 = self.heap.mem.load(f);
                if SkewedPtr(v).unskew() > obj {
                    self.thread(f);
                }
            }
            proof {
                cur = next;
                assert(self.heap@.m == after_visit(
                    m,
                    base as int,
                    self.young(),
                    self.scope_start(),
                    false,
                    obj as int,
                    f as int,
                ));
            }
            f += 4;
        }
        let ghost last: Progress = c.forward_cursor(cur, a, a + 4 * block_words(c.h0.m, a));
        proof {
            c.lemma_forward_cursor(cur, last, self.heap@.m, a);
        }
        Ghost(last)
    }

    /// Threads the pointers from the old generation into the young one,
    /// block by block from the heap's base. Fillers and free space hold no
    /// pointers and are passed over.
    #[verifier::rlimit(40)]
    pub(crate) fn thread_old_generation_pointers(
        &mut self,
        Ghost(c): Ghost<Compaction>,
        Ghost(pr): Ghost<Progress>,
    ) -> (r: Ghost<Progress>)
        requires
            old(self).compacting(c, pr),
            c.young,
            pr == (Progress {
                back: c.h0.free,
                statics: pr.statics,
                chains: pr.chains,
                ..c.start()
            }),
        ensures
            final(self).compacting(c, r@),
            r@ == (Progress { old: c.h0.last_free, chains: r@.chains, ..pr }),
            final(self).heap@.m == after_walk(
                old(self).heap@.m,
                old(self).heap@.base,
                true,
                old(self).heap@.last_free,
                old(self).heap@.base,
                old(self).heap@.last_free,
            ),
            final(self).remembered_set == old(self).remembered_set,
            final(self).marked_space == old(self).marked_space,
            final(self).mark_stack == old(self).mark_stack,
    {
        let mut pointer: u32 = self.heap.limits.base;
        let last_free: u32 = self.heap.limits.last_free;
        let ghost mut cur: Progress = pr;
        let ghost mut k: int = 0;
        let ghost m0 = self.heap@.m;
        let base: u32 = self.heap.limits.base;
        proof {
            c.lemma_starts();
        }
        while pointer < last_free
            invariant
                after_walk(m0, base as int, true, last_free as int, base as int, last_free as int)
                    == after_walk(
                    self.heap@.m,
                    base as int,
                    true,
                    last_free as int,
                    pointer as int,
                    last_free as int,
                ),
                base == self.heap@.base,
                self.young(),
                self.scope_start() == last_free,
                self.compacting(c, cur),
                c.young,
                cur == (Progress { old: pointer as int, old_cur: 0, chains: cur.chains, ..pr }),
                pr == (Progress {
                    back: c.h0.free,
                    statics: pr.statics,
                    chains: pr.chains,
                    ..c.start()
                }),
                last_free == c.h0.last_free,
                0 <= k < c.starts.len(),
                c.starts[k] == pointer,
                pointer <= last_free,
                self.remembered_set == old(self).remembered_set,
                self.marked_space == old(self).marked_space,
                self.mark_stack == old(self).mark_stack,
            decreases last_free - pointer,
        {
            proof {
                c.lemma_old_block(k);
                c.lemma_tag_intact(cur, self.heap@.m, pointer as int);
                c.lemma_shape(cur, self.heap@.m, pointer as int);
            }
            let tag: Tag = self.heap.mem.load(pointer);
            let ghost mut visited: Progress = cur;
            if tag != TAG_ONE_WORD_FILLER && tag != TAG_FREE_SPACE {
                let done = self.thread_fwd_pointers(
                    pointer,
                    Ghost(pointer as int),
                    Ghost(c),
                    Ghost(cur),
                );
                proof {
                    visited = done@;
                }
            }
            proof {
                c.lemma_tag_intact(visited, self.heap@.m, pointer as int);
                c.lemma_shape(visited, self.heap@.m, pointer as int);
            }
            let size: u32 = object_size(&self.heap.mem, pointer).to_bytes().0;
            proof {
                let ghost after: Progress = Progress {
                    old: pointer + size,
                    old_cur: 0,
                    ..visited
                };
                c.lemma_old_jump(visited, after, self.heap@.m);
                cur = after;
                k = k + 1;
            }
            pointer += size;
        }
        Ghost(cur)
    }

    /// One step of the last pass, on the lowest marked object that is not
    /// moved, which lies at `p` and goes to `p_new`: unthreads it, moves
    /// it, and threads its forward pointers. Returns its size in bytes.
    #[verifier::rlimit(40)]
    pub(crate) fn move_object(
        &mut self,
        p: u32,
        p_new: u32,
        Ghost(c): Ghost<Compaction>,
        Ghost(pr): Ghost<Progress>,
    ) -> (r: (u32, Ghost<Progress>))
        requires
            old(self).compacting(c, pr),
            c.is_marked(p as int),
            p_new == c.new_addr(p as int),
            pr.ut == p && pr.mv == p && pr.fwd == p && pr.fwd_cur == 0,
            pr.back == c.h0.free,
            c.young ==> pr.old == c.h0.last_free,
            forall|l: int| c.static_slot(l) ==> pr.statics.contains(l),
        ensures
            final(self).compacting(c, r.1@),
            r.1@ == (Progress {
                ut: p + 4,
                mv: p + 4,
                fwd_cur: p + 4 * block_words(c.h0.m, p as int),
                chains: r.1@.chains,
                ..pr
            }),
            r.0 == 4 * block_words(c.h0.m, p as int),
            ({
                let moved = slid(
                    unthreaded(
                        old(self).heap@.m,
                        p as int,
                        c.chain_locs(pr, p as int),
                        word_at(c.h0.m, p as int),
                        spec_skew(p_new).0,
                    ),
                    p_new as int,
                    p as int,
                    block_words(c.h0.m, p as int),
                );
                final(self).heap@.m == after_visits(
                    moved,
                    old(self).heap@.base,
                    old(self).young(),
                    old(self).scope_start(),
                    false,
                    p_new as int,
                    p_new + 4 * fields_start(word_at(moved, p_new as int)),
                    p_new + 4 * fields_end(moved, p_new as int),
                )
            }),
            final(self).remembered_set == old(self).remembered_set,
            final(self).marked_space == old(self).marked_space,
            final(self).mark_stack == old(self).mark_stack,
    {
        let ghost m0 = self.heap@.m;
        let ghost locs = c.chain_locs(pr, p as int);
        let ghost tag = word_at(c.h0.m, p as int);
        let ghost unthreaded_pr = Progress { ut: p + 4, ..pr };
        proof {
            c.lemma_marked_block(p as int);
            c.lemma_all_visited(pr, p as int);
            c.lemma_chain(pr, m0, p as int);
            c.lemma_unthread_step(pr, unthreaded_pr, m0, p as int);
        }
        // Update the references to the object and restore its header.
        self.unthread_list(p, p_new, Ghost(locs), Ghost(tag));
        let ghost m1 = self.heap@.m;
        proof {
            c.lemma_tag_intact(unthreaded_pr, m1, p as int);
            c.lemma_shape(unthreaded_pr, m1, p as int);
        }
        // Move the object.
        let p_size_words = object_size(&self.heap.mem, p);
        let ghost moved_pr = Progress { mv: p + 4, ..unthreaded_pr };
        proof {
            c.lemma_move_step(unthreaded_pr, moved_pr, m1, p as int);
        }
        if p_new != p {
            self.heap.mem.memcpy_words(p_new, p, p_size_words);
            self.heap.mem.store(p_new + WORD_SIZE, skew(p_new).0);
        }
        assert(self.heap@.m == slid(m1, p_new as int, p as int, p_size_words.0 as int));
        // Thread the forward pointers of the object, moved or not.
        let done = self.thread_fwd_pointers(p_new, Ghost(p as int), Ghost(c), Ghost(moved_pr));
        (p_size_words.to_bytes().0, done)
    }

    /// The last pass. For each marked object, in ascending order of
    /// address: unthreads it, which writes its new address into every slot
    /// that refers to it and restores its tag; moves it down to that
    /// address; threads its forward pointers, from where it now lies.
    /// Returns the address behind the last object moved: the new end of
    /// the heap.
    #[verifier::rlimit(40)]
    pub(crate) fn move_phase(
        &mut self,
        Ghost(c): Ghost<Compaction>,
        Ghost(pr): Ghost<Progress>,
    ) -> (r: (u32, Ghost<Progress>))
        requires
            old(self).compacting(c, pr),
            pr == (Progress {
                back: c.h0.free,
                statics: pr.statics,
                chains: pr.chains,
                ..c.start()
            }),
            forall|l: int| c.static_slot(l) ==> pr.statics.contains(l),
        ensures
            final(self).compacting(c, r.1@),
            r.1@ == c.finish(r.1@),
            forall|l: int| c.static_slot(l) ==> r.1@.statics.contains(l),
            r.0 == c.lo() + marked_bytes(c.h0.m, c.starts, c.marks, c.starts.len() - 1),
            final(self).remembered_set == old(self).remembered_set,
            final(self).marked_space == old(self).marked_space,
            final(self).mark_stack == old(self).mark_stack,
    {
        proof {
            c.lemma_starts();
        }
        let mut free: u32 = self.heap.limits.base;
        let mut bitmap_iter: BitmapIter = self.bitmap.iter_bits();
        let ghost mut cur: Progress = pr;
        if self.strategy == Strategy::Young {
            let done = self.thread_old_generation_pointers(Ghost(c), Ghost(pr));
            proof {
                cur = done@;
            }
            bitmap_iter.advance(self.heap.limits.last_free / WORD_SIZE);
            free = self.heap.limits.last_free;
        }
        let ghost swept = cur;
        let mut bit: u32 = bitmap_iter.next(&self.bitmap);
        let ghost mut k: int = 0;
        proof {
            let ghost first: Progress = Progress {
                ut: position(c, bit),
                mv: position(c, bit),
                fwd: position(c, bit),
                fwd_cur: 0,
                ..cur
            };
            assert forall|t: int| #[trigger] c.is_marked(t) implies t >= position(c, bit) by {
                c.lemma_marked_block(t);
            }
            if bit != BITMAP_ITER_END {
                assert(c.is_marked(4 * bit));
            }
            k = c.lemma_first_object(cur, first, self.heap@.m, position(c, bit));
            cur = first;
        }
        while bit != BITMAP_ITER_END
            invariant
                self.compacting(c, cur),
                cur == (Progress {
                    ut: position(c, bit),
                    mv: position(c, bit),
                    fwd: position(c, bit),
                    fwd_cur: 0,
                    chains: cur.chains,
                    ..swept
                }),
                swept == (Progress {
                    back: c.h0.free,
                    statics: swept.statics,
                    chains: swept.chains,
                    old: swept.old,
                    ..c.start()
                }),
                c.young ==> swept.old == c.h0.last_free,
                !c.young ==> swept.old == c.h0.base,
                forall|l: int| c.static_slot(l) ==> swept.statics.contains(l),
                bit != BITMAP_ITER_END ==> c.marks.is_set(bit as int) && bitmap_iter.pos() == bit
                    + 1,
                c.marks.base() + c.marks.len() < 0x4000_0000,
                0 <= k < c.starts.len(),
                c.starts[k] == position(c, bit),
                free == c.lo() + marked_bytes(c.h0.m, c.starts, c.marks, k),
                self.remembered_set == old(self).remembered_set,
                self.marked_space == old(self).marked_space,
                self.mark_stack == old(self).mark_stack,
            decreases c.h0.free - position(c, bit),
        {
            proof {
                assert(c.is_marked(4 * bit));
                c.lemma_marked_block(4 * bit);
                c.lemma_same_index(k);
            }
            let p: u32 = bit * WORD_SIZE;
            let (size, done) = self.move_object(p, free, Ghost(c), Ghost(cur));
            free += size;
            let next_bit: u32 = bitmap_iter.next(&self.bitmap);
            proof {
                let ghost after: Progress = Progress {
                    ut: position(c, next_bit),
                    mv: position(c, next_bit),
                    fwd: position(c, next_bit),
                    fwd_cur: 0,
                    ..done@
                };
                if next_bit != BITMAP_ITER_END {
                    assert(c.is_marked(4 * next_bit));
                    c.lemma_marked_block(4 * next_bit);
                }
                assert(p < position(c, next_bit));
                assert forall|t: int| #[trigger] c.is_marked(t) implies t <= p || t >= position(
                    c,
                    next_bit,
                ) by {
                    c.lemma_marked_block(t);
                    if t > p {
                        assert(t / 4 >= bit + 1);
                    }
                }
                k = c.lemma_next_object(
                    done@,
                    after,
                    self.heap@.m,
                    p as int,
                    position(c, next_bit),
                    k,
                );
                cur = after;
            }
            bit = next_bit;
        }
        proof {
            c.lemma_last_index(k);
        }
        (free, Ghost(cur))
    }
}

/// The address that a result of the bitmap iterator stands for: that of
/// the word, or the end of the heap when no bit is left.
pub open spec fn position(c: Compaction, bit: u32) -> int {
    if bit == BITMAP_ITER_END {
        c.h0.free
    } else {
        4 * bit
    }
}

} // verus!
