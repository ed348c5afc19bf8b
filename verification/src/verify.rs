//! Checking that the memory of an archived table is valid before it is used.
//!
//! The checks of what is not the table's own, its block of memory and its entries, are
//! left to a context. It is handed on from one to the next: every check takes the
//! context and gives it back.

use vstd::prelude::*;

use crate::archive::Layout;
use crate::archive::Portable;
use crate::error::InvalidLength;
use crate::error::LayoutError;
use crate::error::UnwrappedControlByte;
use crate::error::VerifyError;
use crate::group::GROUP_WIDTH;
use crate::table::ArchivedHashTable;

verus! {

/// Whether `check` may accept `bytes` in context `before`, and leave it as `after`.
pub open spec fn accepted<C, E, F: Fn(C, &[u8]) -> (C, Result<(), E>)>(
    check: F,
    before: C,
    bytes: Seq<u8>,
    after: C,
) -> bool {
    exists|slice: &[u8], answer: Result<(), E>|
        slice@ == bytes && #[trigger] call_ensures(check, (before, slice), (after, answer))
            && answer is Ok
}

/// Whether `check` may refuse `bytes` with `error` in context `before`, and leave it as
/// `after`.
pub open spec fn refused<C, E, F: Fn(C, &[u8]) -> (C, Result<(), E>)>(
    check: F,
    before: C,
    bytes: Seq<u8>,
    error: E,
    after: C,
) -> bool {
    exists|slice: &[u8], answer: Result<(), E>|
        slice@ == bytes && #[trigger] call_ensures(check, (before, slice), (after, answer))
            && answer == Err::<(), E>(error)
}

/// Whether `claim` may grant a block of memory at `position` in context `before`, and
/// leave it as `after`.
pub open spec fn granted<C, E, G: Fn(C, usize, Layout) -> (C, Result<(), E>)>(
    claim: G,
    before: C,
    position: usize,
    layout: Layout,
    after: C,
) -> bool {
    exists|answer: Result<(), E>| #[trigger]
        call_ensures(claim, (before, position, layout), (after, answer)) && answer is Ok
}

/// Whether `claim` may deny a block of memory at `position` with `error` in context
/// `before`, and leave it as `after`.
pub open spec fn denied<C, E, G: Fn(C, usize, Layout) -> (C, Result<(), E>)>(
    claim: G,
    before: C,
    position: usize,
    layout: Layout,
    error: E,
    after: C,
) -> bool {
    exists|answer: Result<(), E>| #[trigger]
        call_ensures(claim, (before, position, layout), (after, answer)) && answer == Err::<
            (),
            E,
        >(error)
}

impl<T: Portable> ArchivedHashTable<T> {
    /// The position of the memory of the table.
    pub open spec fn memory_at(self) -> int {
        self.controls_at() - self.spec_capacity() * T::spec_size()
    }

    /// The position of the memory of the table, as far as a position can tell it: one
    /// in front of the archive or far behind it wraps around.
    pub open spec fn wrapped_memory_at(self) -> usize {
        (self.memory_at() % (usize::MAX + 1)) as usize
    }

    /// The block of memory of a table whose sizes make sense.
    pub open spec fn spec_layout(self) -> Layout {
        Self::spec_memory_layout(self.spec_capacity())
    }

    /// Whether the sizes of the table make sense: it has a bucket to spare, and
    /// its buckets and control bytes can be laid out in memory.
    pub open spec fn has_layout(self) -> bool {
        &&& self.spec_len() < self.spec_capacity()
        &&& self.spec_capacity() + 15 <= usize::MAX
        &&& crate::archive::fits_in_memory(
            self.spec_capacity() * T::spec_size() + self.spec_capacity() + 15,
            T::spec_align() as int,
        )
    }

    /// Whether the sizes of the table make sense and its memory is inside `archive`.
    pub open spec fn is_placed(self, archive: Seq<u8>) -> bool {
        &&& self.has_layout()
        &&& 0 <= self.memory_at()
        &&& self.controls_at() + self.spec_capacity() + 15 <= archive.len()
    }

    /// The full buckets, in ascending order.
    pub open spec fn full_buckets(self, archive: Seq<u8>) -> Seq<int> {
        self.view_in(archive).controls.full_from(0)
    }

    /// Whether `check` may accept the entries of the first full buckets, one after
    /// another and each once, and take the context through `contexts`.
    pub open spec fn checked_through<C, E, F: Fn(C, &[u8]) -> (C, Result<(), E>)>(
        self,
        archive: Seq<u8>,
        check: F,
        contexts: Seq<C>,
    ) -> bool {
        &&& 1 <= contexts.len() <= self.full_buckets(archive).len() + 1
        &&& forall|k: int|
            0 <= k < contexts.len() - 1 ==> accepted(
                check,
                contexts[k],
                self.bucket(archive, #[trigger] self.full_buckets(archive)[k]),
                contexts[k + 1],
            )
    }

    /// Whether `enter` may grant the memory of the table and then `check` accept the
    /// entries of the first `count` full buckets, and take the context from `before` to
    /// `after`.
    pub open spec fn checked<
        C,
        E,
        G: Fn(C, usize, Layout) -> (C, Result<(), E>),
        F: Fn(C, &[u8]) -> (C, Result<(), E>),
    >(
        self,
        archive: Seq<u8>,
        enter: G,
        check: F,
        before: C,
        count: int,
        after: C,
    ) -> bool {
        exists|contexts: Seq<C>|
            {
                &&& #[trigger] self.checked_through(archive, check, contexts)
                &&& contexts.len() == count + 1
                &&& granted(
                    enter,
                    before,
                    self.wrapped_memory_at(),
                    self.spec_layout(),
                    contexts[0],
                )
                &&& contexts.last() == after
            }
    }

    /// Whether `check` can be asked about the bytes of every entry that is handed to
    /// it: those in full buckets, after all before them were accepted.
    pub open spec fn can_check<
        C,
        E,
        G: Fn(C, usize, Layout) -> (C, Result<(), E>),
        F: Fn(C, &[u8]) -> (C, Result<(), E>),
    >(self, archive: Seq<u8>, enter: G, check: F, before: C) -> bool {
        forall|count: int, reached: C, bytes: &[u8]|
            #![trigger self.checked(archive, enter, check, before, count, reached), call_requires(check, (reached, bytes))]
            self.checked(archive, enter, check, before, count, reached) && 0 <= count
                < self.full_buckets(archive).len() && bytes@ == self.bucket(
                archive,
                self.full_buckets(archive)[count],
            ) ==> call_requires(check, (reached, bytes))
    }

    /// Whether `leave` can be asked once the whole table was checked.
    pub open spec fn can_leave<
        C,
        E,
        G: Fn(C, usize, Layout) -> (C, Result<(), E>),
        F: Fn(C, &[u8]) -> (C, Result<(), E>),
        H: Fn(C, usize, Layout) -> (C, Result<(), E>),
    >(self, archive: Seq<u8>, enter: G, check: F, leave: H, before: C) -> bool {
        let count = self.full_buckets(archive).len() as int;
        self.view_in(archive).controls.wrapped() ==> forall|reached: C| #[trigger]
            self.checked(archive, enter, check, before, count, reached) ==> call_requires(
                leave,
                (reached, self.wrapped_memory_at(), self.spec_layout()),
            )
    }

    /// Whether the control byte at `index` repeats the one it should, where it
    /// should repeat one.
    pub open spec fn repeats(self, archive: Seq<u8>, index: int) -> bool {
        let bytes = self.view_in(archive).controls.bytes;
        bytes[index] == bytes[index % self.spec_capacity()]
    }

    /// Whether checking the table in context `before` may give `result` and leave the
    /// context as `after`.
    pub open spec fn verify_gives<
        C,
        E,
        G: Fn(C, usize, Layout) -> (C, Result<(), E>),
        F: Fn(C, &[u8]) -> (C, Result<(), E>),
        H: Fn(C, usize, Layout) -> (C, Result<(), E>),
    >(
        self,
        archive: Seq<u8>,
        enter: G,
        check: F,
        leave: H,
        before: C,
        result: Result<(), VerifyError<E>>,
        after: C,
    ) -> bool {
        let (at, layout) = (self.wrapped_memory_at(), self.spec_layout());
        let count = self.full_buckets(archive).len() as int;
        match result {
            Ok(()) => {
                ||| self.spec_len() == 0 && self.spec_capacity() == 0 && after == before
                ||| {
                    &&& self.is_placed(archive)
                    &&& self.view_in(archive).controls.wrapped()
                    &&& exists|reached: C| #[trigger]
                        self.checked(archive, enter, check, before, count, reached) && granted(
                            leave,
                            reached,
                            at,
                            layout,
                            after,
                        )
                }
            },
            Err(VerifyError::InvalidLength(error)) => {
                &&& !(self.spec_len() == 0 && self.spec_capacity() == 0)
                &&& self.spec_len() >= self.spec_capacity()
                &&& error.len == self.spec_len()
                &&& error.cap == self.spec_capacity()
                &&& after == before
            },
            Err(VerifyError::Layout(error)) => {
                &&& self.spec_len() < self.spec_capacity()
                &&& !self.has_layout()
                &&& error == (if self.spec_capacity() + 15 > usize::MAX {
                    LayoutError::ControlCountOverflow
                } else {
                    LayoutError::TooLarge
                })
                &&& after == before
            },
            Err(VerifyError::Memory(error)) => {
                ||| self.has_layout() && denied(enter, before, at, layout, error, after)
                ||| {
                    &&& self.is_placed(archive)
                    &&& self.view_in(archive).controls.wrapped()
                    &&& exists|reached: C| #[trigger]
                        self.checked(archive, enter, check, before, count, reached) && denied(
                            leave,
                            reached,
                            at,
                            layout,
                            error,
                            after,
                        )
                }
            },
            Err(VerifyError::OutOfBounds) => {
                &&& self.has_layout()
                &&& !self.is_placed(archive)
                &&& granted(enter, before, at, layout, after)
            },
            Err(VerifyError::Entry { index, error }) => {
                &&& self.is_placed(archive)
                &&& exists|k: int, reached: C|
                    {
                        &&& #[trigger] self.checked(archive, enter, check, before, k, reached)
                        &&& 0 <= k < count
                        &&& index == self.full_buckets(archive)[k]
                        &&& refused(
                            check,
                            reached,
                            self.bucket(archive, index as int),
                            error,
                            after,
                        )
                    }
            },
            Err(VerifyError::UnwrappedControlByte(error)) => {
                &&& self.is_placed(archive)
                &&& self.checked(archive, enter, check, before, count, after)
                &&& self.spec_capacity() <= error.index < self.spec_capacity() + 15
                &&& error.index < 2 * self.spec_capacity()
                &&& !self.repeats(archive, error.index as int)
                &&& forall|i: int|
                    self.spec_capacity() <= i < error.index ==> #[trigger] self.repeats(
                        archive,
                        i,
                    )
            },
        }
    }

    /// The position of the memory of the table, wrapped around.
    fn memory_position(&self, control_offset: usize) -> (position: usize)
        requires
            control_offset == self.spec_capacity() * T::spec_size(),
            control_offset <= isize::MAX,
        ensures
            position == self.wrapped_memory_at(),
    {
        let memory_at: i128 = self.ptr.pos as i128 + self.ptr.offset as i128
            - control_offset as i128;
        let ghost whole: int = usize::MAX + 1;
        if memory_at < 0 {
            let position = (memory_at + usize::MAX as i128 + 1) as usize;
            proof {
                vstd::arithmetic::div_mod::lemma_fundamental_div_mod_converse(
                    memory_at as int,
                    whole,
                    -1,
                    position as int,
                );
            }
            position
        } else if memory_at > usize::MAX as i128 {
            let position = (memory_at - usize::MAX as i128 - 1) as usize;
            proof {
                vstd::arithmetic::div_mod::lemma_fundamental_div_mod_converse(
                    memory_at as int,
                    whole,
                    1,
                    position as int,
                );
            }
            position
        } else {
            proof {
                vstd::arithmetic::div_mod::lemma_small_mod(memory_at as nat, whole as nat);
            }
            memory_at as usize
        }
    }

    /// Checks the entries of all full buckets. Returns the context, and the first bucket
    /// whose entry was refused, if there is one.
    fn verify_entries<
        C,
        E,
        G: Fn(C, usize, Layout) -> (C, Result<(), E>),
        F: Fn(C, &[u8]) -> (C, Result<(), E>),
    >(
        &self,
        archive: &[u8],
        context: C,
        Ghost(enter): Ghost<G>,
        check: &F,
        Ghost(before): Ghost<C>,
    ) -> (outcome: (C, Result<(), (usize, E)>))
        requires
            self.is_placed(archive@),
            self.in_archive(archive@),
            granted(enter, before, self.wrapped_memory_at(), self.spec_layout(), context),
            self.can_check(archive@, enter, *check, before),
        ensures
            match outcome.1 {
                Ok(()) => self.checked(
                    archive@,
                    enter,
                    *check,
                    before,
                    self.full_buckets(archive@).len() as int,
                    outcome.0,
                ),
                Err((index, error)) => exists|k: int, reached: C|
                    {
                        &&& #[trigger] self.checked(archive@, enter, *check, before, k, reached)
                        &&& 0 <= k < self.full_buckets(archive@).len()
                        &&& index == self.full_buckets(archive@)[k]
                        &&& refused(
                            *check,
                            reached,
                            self.bucket(archive@, index as int),
                            error,
                            outcome.0,
                        )
                    },
            },
    {
        let cap = self.capacity();
        let ghost view = self.view_in(archive@).controls;
        let ghost full = self.full_buckets(archive@);
        proof {
            assert(archive.len() == archive@.len());
            self.lemma_layout();
        }
        let mut context = context;
        let ghost mut contexts = seq![context];
        let mut controls = self.control_iter(archive);
        let mut base_index: usize = 0;
        assert(full.skip(0) =~= full);
        while base_index < cap
            invariant
                cap == self.spec_capacity(),
                0 < cap <= isize::MAX - 15,
                self.in_archive(archive@),
                self.is_placed(archive@),
                view == self.view_in(archive@).controls,
                full == self.full_buckets(archive@),
                self.can_check(archive@, enter, *check, before),
                base_index < cap ==> controls.next_group == self.controls_at() + base_index + 8,
                base_index < cap ==> forall|lane: int|
                    controls.current_mask.has(lane) <==> 0 <= lane < 8 && crate::group::is_full(
                        view.bytes[base_index + lane],
                    ),
                self.checked_through(archive@, *check, contexts),
                granted(
                    enter,
                    before,
                    self.wrapped_memory_at(),
                    self.spec_layout(),
                    contexts[0],
                ),
                contexts.last() == context,
                full.skip(contexts.len() - 1) == view.full_from(base_index as int),
            decreases cap + 8 - base_index,
        {
            let ghost mut next: int = base_index as int;
            loop
                invariant_except_break
                    forall|lane: int|
                        controls.current_mask.has(lane) <==> next <= base_index + lane
                            < base_index + 8 && crate::group::is_full(
                            view.bytes[base_index + lane],
                        ),
                    full.skip(contexts.len() - 1) == view.full_from(next),
                invariant
                    cap == self.spec_capacity(),
                    0 < cap <= isize::MAX - 15,
                    base_index < cap,
                    self.in_archive(archive@),
                    self.is_placed(archive@),
                    view == self.view_in(archive@).controls,
                    full == self.full_buckets(archive@),
                    self.can_check(archive@, enter, *check, before),
                    controls.next_group == self.controls_at() + base_index + 8,
                    base_index <= next <= base_index + 8,
                    self.checked_through(archive@, *check, contexts),
                    granted(
                        enter,
                        before,
                        self.wrapped_memory_at(),
                        self.spec_layout(),
                        contexts[0],
                    ),
                    contexts.last() == context,
                ensures
                    full.skip(contexts.len() - 1) == view.full_from(base_index + 8),
                decreases base_index + 8 - next,
            {
                let ghost mask = controls.current_mask;
                let ghost k = contexts.len() - 1;
                match controls.next_full() {
                    Some(bit) => {
                        let index = base_index + bit;
                        proof {
                            assert forall|i: int|
                                next <= i < index && i < view.capacity implies !crate::group::is_full(
                                #[trigger] view.bytes[i],
                            ) by {
                                assert(view.bytes[base_index + (i - base_index)] == view.bytes[i]);
                                assert(!mask.has(i - base_index));
                            }
                            view.lemma_full_from_skips(next, index as int);
                        }
                        if index >= cap {
                            break ;
                        }
                        let at = self.bucket_raw(archive, index);
                        let bucket = vstd::slice::slice_subrange(archive, at, at + T::size());
                        proof {
                            assert(bucket@ == self.bucket(archive@, index as int));
                            assert(crate::group::is_full(view.bytes[index as int]));
                            assert(view.full_from(index as int) =~= seq![index as int]
                                + view.full_from(index + 1));
                            assert(full.skip(k)[0] == index as int);
                            assert(full[k] == index as int);
                            assert(full.skip(k + 1) =~= full.skip(k).skip(1));
                            assert((seq![index as int] + view.full_from(index + 1)).skip(1)
                                =~= view.full_from(index + 1));
                            assert(self.checked(archive@, enter, *check, before, k, context));
                        }
                        let ghost reached = context;
                        let (next_context, answer) = check(context, bucket);
                        assert(call_ensures(*check, (reached, bucket), (next_context, answer)));
                        context = next_context;
                        match answer {
                            Ok(()) => {},
                            Err(error) => {
                                return (context, Err((index, error)));
                            },
                        }
                        proof {
                            let longer = contexts.push(context);
                            assert(accepted(
                                *check,
                                reached,
                                self.bucket(archive@, full[k]),
                                context,
                            ));
                            assert forall|j: int| 0 <= j < longer.len() - 1 implies accepted(
                                *check,
                                longer[j],
                                self.bucket(archive@, #[trigger] full[j]),
                                longer[j + 1],
                            ) by {
                                if j < k {
                                    assert(longer[j] == contexts[j]);
                                    assert(longer[j + 1] == contexts[j + 1]);
                                }
                            }
                            contexts = longer;
                            next = index + 1;
                        }
                    },
                    None => {
                        proof {
                            assert forall|i: int|
                                next <= i < base_index + 8 && i
                                    < view.capacity implies !crate::group::is_full(
                                #[trigger] view.bytes[i],
                            ) by {
                                assert(view.bytes[base_index + (i - base_index)] == view.bytes[i]);
                                assert(!mask.has(i - base_index));
                            }
                            view.lemma_full_from_skips(next, base_index + 8);
                        }
                        break ;
                    },
                }
            }
            base_index = base_index + GROUP_WIDTH;
            if base_index < cap {
                controls.move_next(archive);
                assert forall|lane: int|
                    controls.current_mask.has(lane) <==> 0 <= lane < 8 && crate::group::is_full(
                        view.bytes[base_index + lane],
                    ) by {
                    if 0 <= lane < 8 {
                        assert(view.bytes[base_index + lane] == archive@[self.controls_at()
                            + base_index + lane]);
                    }
                }
            }
        }
        assert(full.skip(contexts.len() - 1).len() == 0);
        (context, Ok(()))
    }

    /// The first control byte past the last bucket that does not repeat the one it
    /// should, if there is one.
    fn unwrapped_control_byte(&self, archive: &[u8]) -> (unwrapped: Option<usize>)
        requires
            self.is_placed(archive@),
            self.in_archive(archive@),
        ensures
            match unwrapped {
                Some(index) => {
                    &&& self.spec_capacity() <= index < self.spec_capacity() + 15
                    &&& index < 2 * self.spec_capacity()
                    &&& !self.repeats(archive@, index as int)
                    &&& forall|i: int|
                        self.spec_capacity() <= i < index ==> #[trigger] self.repeats(archive@, i)
                },
                None => self.view_in(archive@).controls.wrapped(),
            },
    {
        let cap = self.capacity();
        let ghost bytes = self.view_in(archive@).controls.bytes;
        proof {
            assert(archive.len() == archive@.len());
            self.lemma_layout();
        }
        let end: usize = if cap <= 15 {
            2 * cap
        } else {
            cap + 15
        };
        let first = self.control_raw(archive, 0);
        let mut i: usize = cap;
        while i < end
            invariant
                cap <= i <= end,
                cap == self.spec_capacity(),
                end <= cap + 15,
                end <= 2 * cap,
                0 < cap <= isize::MAX - 15,
                self.in_archive(archive@),
                first == self.controls_at(),
                bytes == self.view_in(archive@).controls.bytes,
                forall|j: int| cap <= j < i ==> #[trigger] self.repeats(archive@, j),
            decreases end - i,
        {
            assert(archive.len() == archive@.len());
            let byte = archive[first + i];
            let wrapped = archive[first + i % cap];
            assert(bytes[i as int] == byte);
            assert(bytes[i as int % cap as int] == wrapped);
            if wrapped != byte {
                return Some(i);
            }
            assert(self.repeats(archive@, i as int));
            i = i + 1;
        }
        assert forall|j: int| cap <= j < bytes.len() && j < 2 * cap implies #[trigger] bytes[j]
            == bytes[j % cap as int] by {
            assert(self.repeats(archive@, j));
        }
        None
    }

    /// Checks the table. Returns the context and what the check gives.
    ///
    /// A table without entries and without buckets is valid. In any other, the sizes
    /// must make sense. `enter` must grant the block of memory at its position, aligned
    /// or not. Then `check` must accept the bytes of every entry: it is asked about each
    /// once, in the order of the buckets, and not after it refused one. The control bytes
    /// past the last bucket must repeat the first ones. In the end, `leave` is told that
    /// all of the block was checked.
    ///
    /// A block that `enter` grants although it is not in `archive` is not read.
    pub fn verify<
        C,
        E,
        G: Fn(C, usize, Layout) -> (C, Result<(), E>),
        F: Fn(C, &[u8]) -> (C, Result<(), E>),
        H: Fn(C, usize, Layout) -> (C, Result<(), E>),
    >(&self, archive: &[u8], context: C, enter: G, check: F, leave: H) -> (outcome: (
        C,
        Result<(), VerifyError<E>>,
    ))
        requires
            self.has_layout() ==> call_requires(
                enter,
                (context, self.wrapped_memory_at(), self.spec_layout()),
            ),
            self.is_placed(archive@) ==> {
                &&& self.can_check(archive@, enter, check, context)
                &&& self.can_leave(archive@, enter, check, leave, context)
            },
        ensures
            self.verify_gives(archive@, enter, check, leave, context, outcome.1, outcome.0),
    {
        let len = self.len();
        let cap = self.capacity();
        if len == 0 && cap == 0 {
            return (context, Ok(()));
        }
        if len >= cap {
            return (context, Err(VerifyError::InvalidLength(InvalidLength { len, cap })));
        }
        // Check memory allocation.
        let control_count = match Self::control_count(cap) {
            Ok(control_count) => control_count,
            Err(error) => return (context, Err(VerifyError::Layout(error))),
        };
        let (layout, control_offset) = match Self::memory_layout(cap, control_count) {
            Ok(layout) => layout,
            Err(error) => return (context, Err(VerifyError::Layout(error))),
        };
        proof {
            crate::archive::lemma_layout_is_valid::<T>();
            assert(layout == self.spec_layout());
            assert(archive.len() == archive@.len());
        }
        let position = self.memory_position(control_offset);
        let ghost before = context;
        let (context, answer) = enter(context, position, layout);
        assert(call_ensures(enter, (before, position, layout), (context, answer)));
        match answer {
            Ok(()) => {},
            Err(error) => return (context, Err(VerifyError::Memory(error))),
        }
        assert(granted(enter, before, position, layout, context));
        let memory_at: i128 = self.ptr.pos as i128 + self.ptr.offset as i128
            - control_offset as i128;
        if memory_at < 0 || memory_at + layout.size as i128 > archive.len() as i128 {
            return (context, Err(VerifyError::OutOfBounds));
        }
        // Check each non-empty bucket.
        let (context, entries) = self.verify_entries::<C, E, G, F>(
            archive,
            context,
            Ghost(enter),
            &check,
            Ghost(before),
        );
        match entries {
            Ok(()) => {},
            Err((index, error)) => return (context, Err(VerifyError::Entry { index, error })),
        }
        // Verify that wrapped bytes are set correctly.
        match self.unwrapped_control_byte(archive) {
            Some(index) => {
                return (
                    context,
                    Err(VerifyError::UnwrappedControlByte(UnwrappedControlByte { index })),
                );
            },
            None => {},
        }
        let ghost reached = context;
        let (context, answer) = leave(context, position, layout);
        assert(call_ensures(leave, (reached, position, layout), (context, answer)));
        match answer {
            Ok(()) => {
                assert(granted(leave, reached, position, layout, context));
                (context, Ok(()))
            },
            Err(error) => {
                assert(denied(leave, reached, position, layout, error, context));
                (context, Err(VerifyError::Memory(error)))
            },
        }
    }
}

} // verus!
