//! The layout of the initial stack image.
//!
//! At its start a process finds on its stack a row of 64-bit words: the count
//! of its arguments, one pointer for each argument, a null word, one pointer
//! for each entry of the environment, a null word, and after that what this
//! library does not read. An image is that row of words, from the stack
//! pointer on.

use vstd::prelude::*;

verus! {

/// Why an image has no layout.
#[derive(Debug, Clone, Copy, PartialEq, Eq, Structural)]
pub enum LayoutFault {
    /// The image ends before the second of the two tables does.
    Truncated,
    /// One of the argument pointers that the count promises is null.
    NullArgument,
    /// The word after the last argument pointer is not null.
    MissingTerminator,
}

/// The two tables of an image.
#[derive(Debug)]
pub struct StackLayout {
    /// The argument pointers, in order.
    pub argv: Vec<u64>,
    /// The environment pointers, in order.
    pub envp: Vec<u64>,
}

impl StackLayout {
    /// The number of arguments.
    pub fn argc(&self) -> (count: usize)
        ensures
            count == self.argv@.len(),
    {
        self.argv.len()
    }
}

/// The count of arguments that an image starts with.
pub open spec fn argc_of(image: Seq<u64>) -> int
    recommends
        image.len() >= 1,
{
    image[0] as int
}

/// The argument pointers of an image: the words after the count, as many as
/// the count says.
pub open spec fn argv_of(image: Seq<u64>) -> Seq<u64>
    recommends
        argc_of(image) < image.len(),
{
    image.subrange(1, argc_of(image) + 1)
}

/// The place of the first word of the environment table.
pub open spec fn envp_start(image: Seq<u64>) -> int {
    argc_of(image) + 2
}

/// `end` is the place of the null word that ends the environment table.
pub open spec fn is_envp_end(image: Seq<u64>, end: int) -> bool {
    &&& envp_start(image) <= end < image.len()
    &&& image[end] == 0
    &&& forall|i: int| envp_start(image) <= i < end ==> image[i] != 0
}

/// The place of the null word that ends the environment table.
pub open spec fn envp_end(image: Seq<u64>) -> int
    recommends
        well_formed(image),
{
    choose|end: int| is_envp_end(image, end)
}

/// The environment pointers of an image: the words between the null word
/// after the argument pointers and the next null word.
pub open spec fn envp_of(image: Seq<u64>) -> Seq<u64>
    recommends
        well_formed(image),
{
    image.subrange(envp_start(image), envp_end(image))
}

/// One of the words that the count takes for argument pointers is there and
/// is null.
pub open spec fn has_null_argument(image: Seq<u64>) -> bool {
    exists|i: int| 1 <= i <= argc_of(image) && i < image.len() && image[i] == 0
}

/// The image is laid out as the start of a process lays it out: the count,
/// that many pointers, none of them null, a null word, the environment
/// pointers and a null word.
pub open spec fn well_formed(image: Seq<u64>) -> bool {
    &&& image.len() >= 1
    &&& argc_of(image) + 1 < image.len()
    &&& forall|i: int| 1 <= i <= argc_of(image) ==> image[i] != 0
    &&& image[argc_of(image) + 1] == 0
    &&& exists|end: int| is_envp_end(image, end)
}

/// What is wrong with an image, read from its start: `None` for an image
/// that is well formed.
pub open spec fn layout_fault(image: Seq<u64>) -> Option<LayoutFault> {
    if well_formed(image) {
        None
    } else if image.len() >= 1 && has_null_argument(image) {
        Some(LayoutFault::NullArgument)
    } else if image.len() >= 1 && argc_of(image) + 1 < image.len() && image[argc_of(image) + 1]
        != 0 {
        Some(LayoutFault::MissingTerminator)
    } else {
        Some(LayoutFault::Truncated)
    }
}

/// The layout that `image` has, or what is wrong with it.
pub open spec fn is_layout_of(outcome: Result<StackLayout, LayoutFault>, image: Seq<u64>) -> bool {
    match outcome {
        Ok(layout) => {
            &&& well_formed(image)
            &&& layout.argv@ == argv_of(image)
            &&& layout.envp@ == envp_of(image)
        },
        Err(fault) => layout_fault(image) == Some(fault),
    }
}

/// An image has one end of its environment table at most.
pub proof fn lemma_envp_end_unique(image: Seq<u64>, end: int)
    requires
        is_envp_end(image, end),
    ensures
        envp_end(image) == end,
{
    let other = envp_end(image);
    assert(is_envp_end(image, other));
    if other < end {
        assert(image[other] != 0);
    }
    if end < other {
        assert(image[end] != 0);
    }
}

/// The argument table of a well-formed image has as many entries as the
/// count says, in the order of the image, none left out and none null.
pub proof fn lemma_argv_follows_count(image: Seq<u64>)
    requires
        well_formed(image),
    ensures
        argv_of(image).len() == argc_of(image),
        forall|i: int| 0 <= i < argc_of(image) ==> argv_of(image)[i] == image[i + 1],
        forall|i: int| 0 <= i < argc_of(image) ==> argv_of(image)[i] != 0,
{
}

/// The environment table of a well-formed image starts after the null word
/// that ends the argument table, and runs up to the next null word.
pub proof fn lemma_envp_follows_argv(image: Seq<u64>)
    requires
        well_formed(image),
    ensures
        is_envp_end(image, envp_end(image)),
        envp_of(image).len() == envp_end(image) - envp_start(image),
        forall|i: int|
            0 <= i < envp_of(image).len() ==> envp_of(image)[i] == image[envp_start(image) + i],
        forall|i: int| 0 <= i < envp_of(image).len() ==> envp_of(image)[i] != 0,
{
}

/// Once a front part of an image is well formed, or shows a null argument or
/// a missing terminator, the words after it change nothing: the whole image
/// has the same tables, or the same fault.
pub proof fn lemma_settled_by_front(image: Seq<u64>, n: int)
    requires
        0 <= n <= image.len(),
        layout_fault(image.take(n)) != Some(LayoutFault::Truncated),
    ensures
        layout_fault(image) == layout_fault(image.take(n)),
        well_formed(image) ==> argv_of(image) == argv_of(image.take(n)),
        well_formed(image) ==> envp_of(image) == envp_of(image.take(n)),
{
    let front = image.take(n);
    assert(front.len() >= 1);
    assert(front[0] == image[0]);
    if well_formed(front) {
        let end = envp_end(front);
        assert(is_envp_end(front, end));
        assert(is_envp_end(image, end)) by {
            assert(forall|i: int| 0 <= i < n ==> front[i] == image[i]);
        }
        assert(well_formed(image)) by {
            assert(forall|i: int| 0 <= i < n ==> front[i] == image[i]);
        }
        lemma_envp_end_unique(image, end);
        assert(argv_of(image) =~= argv_of(front));
        assert(envp_of(image) =~= envp_of(front));
    } else if has_null_argument(front) {
        let i = choose|i: int| 1 <= i <= argc_of(front) && i < front.len() && front[i] == 0;
        assert(image[i] == 0);
    } else {
        assert(front[argc_of(front) + 1] == image[argc_of(image) + 1]);
        if has_null_argument(image) {
            let i = choose|i: int| 1 <= i <= argc_of(image) && i < image.len() && image[i] == 0;
            assert(front[i] == 0);
        }
    }
}

/// Of a well-formed image, every front part that ends before the null word
/// that closes the environment table is truncated, and the front part that
/// ends with that word is well formed: reading word by word, the layout is
/// settled by that word and by no earlier one.
pub proof fn lemma_settled_at_envp_end(image: Seq<u64>, n: int)
    requires
        well_formed(image),
        0 <= n <= envp_end(image),
    ensures
        envp_end(image) < image.len(),
        layout_fault(image.take(n)) == Some(LayoutFault::Truncated),
        layout_fault(image.take(envp_end(image) + 1)) is None,
{
    let end = envp_end(image);
    assert(is_envp_end(image, end));
    let front = image.take(n);
    if n >= 1 {
        assert(front[0] == image[0]);
        if well_formed(front) {
            let early = envp_end(front);
            assert(is_envp_end(front, early));
            assert(image[early] == front[early]);
        }
        if has_null_argument(front) {
            let i = choose|i: int| 1 <= i <= argc_of(front) && i < front.len() && front[i] == 0;
            assert(image[i] == 0);
        }
        if argc_of(front) + 1 < front.len() {
            assert(front[argc_of(front) + 1] == image[argc_of(image) + 1]);
        }
    }
    let whole = image.take(end + 1);
    assert(whole[0] == image[0]);
    assert(forall|i: int| 0 <= i <= end ==> whole[i] == image[i]);
    assert(is_envp_end(whole, end));
}

/// How far a decoder has come.
#[derive(Clone, Copy)]
enum Phase {
    /// Nothing was taken in yet: the count comes next.
    Count,
    /// The count was taken in: argument pointers come next, then their null word.
    Arguments,
    /// The argument table is closed: environment pointers come next, then
    /// their null word.
    Environment,
    /// Both tables are closed.
    Complete,
    /// A word that cannot stand where it stood was taken in.
    Failed(LayoutFault),
}

/// A decoder that takes an image in word by word, from the stack pointer on,
/// and needs no word beyond the null word that ends the environment table.
pub struct LayoutDecoder {
    phase: Phase,
    argc: u64,
    argv: Vec<u64>,
    envp: Vec<u64>,
    seen: Ghost<Seq<u64>>,
}

impl LayoutDecoder {
    /// The words taken in so far, in order.
    pub closed spec fn seen(self) -> Seq<u64> {
        self.seen@
    }

    /// The words taken in so far are the front of a well-formed image at
    /// best: more have to follow.
    pub open spec fn pending(self) -> bool {
        layout_fault(self.seen()) == Some(LayoutFault::Truncated)
    }

    #[verifier::type_invariant]
    spec fn inv(self) -> bool {
        match self.phase {
            Phase::Count => {
                &&& self.seen@ =~= Seq::<u64>::empty()
                &&& self.argv@.len() == 0
                &&& self.envp@.len() == 0
            },
            Phase::Arguments => {
                &&& self.seen@ =~= seq![self.argc] + self.argv@
                &&& self.argv@.len() <= self.argc
                &&& forall|i: int| 0 <= i < self.argv@.len() ==> self.argv@[i] != 0
                &&& self.envp@.len() == 0
            },
            Phase::Environment => {
                &&& self.seen@ =~= seq![self.argc] + self.argv@ + seq![0u64] + self.envp@
                &&& self.argv@.len() == self.argc
                &&& forall|i: int| 0 <= i < self.argv@.len() ==> self.argv@[i] != 0
                &&& forall|i: int| 0 <= i < self.envp@.len() ==> self.envp@[i] != 0
            },
            Phase::Complete => {
                &&& self.seen@ =~= seq![self.argc] + self.argv@ + seq![0u64] + self.envp@
                    + seq![0u64]
                &&& self.argv@.len() == self.argc
                &&& forall|i: int| 0 <= i < self.argv@.len() ==> self.argv@[i] != 0
                &&& forall|i: int| 0 <= i < self.envp@.len() ==> self.envp@[i] != 0
            },
            Phase::Failed(fault) => {
                &&& fault != LayoutFault::Truncated
                &&& layout_fault(self.seen@) == Some(fault)
            },
        }
    }

    /// What each phase says of the words taken in.
    proof fn lemma_phase(self)
        requires
            self.inv(),
        ensures
            match self.phase {
                Phase::Count | Phase::Arguments | Phase::Environment => self.pending(),
                Phase::Complete => {
                    &&& well_formed(self.seen())
                    &&& argv_of(self.seen()) == self.argv@
                    &&& envp_of(self.seen()) == self.envp@
                },
                Phase::Failed(fault) => {
                    &&& fault != LayoutFault::Truncated
                    &&& layout_fault(self.seen()) == Some(fault)
                },
            },
    {
        let seen = self.seen@;
        match self.phase {
            Phase::Count => {},
            Phase::Arguments => {
                assert(forall|i: int| 1 <= i < seen.len() ==> seen[i] == self.argv@[i - 1]);
            },
            Phase::Environment => {
                let start = self.argc + 2;
                assert(forall|i: int| 1 <= i <= self.argc ==> seen[i] == self.argv@[i - 1]);
                assert(forall|i: int| start <= i < seen.len() ==> seen[i] == self.envp@[i - start]);
                assert(seen[self.argc + 1] == 0);
            },
            Phase::Complete => {
                let start = self.argc + 2;
                let end = seen.len() - 1;
                assert(forall|i: int| 1 <= i <= self.argc ==> seen[i] == self.argv@[i - 1]);
                assert(forall|i: int| start <= i < end ==> seen[i] == self.envp@[i - start]);
                assert(seen[self.argc + 1] == 0);
                assert(is_envp_end(seen, end));
                lemma_envp_end_unique(seen, end);
                assert(argv_of(seen) =~= self.argv@);
                assert(envp_of(seen) =~= self.envp@);
            },
            Phase::Failed(_) => {},
        }
    }

    /// A decoder that has taken in nothing.
    pub fn new() -> (decoder: Self)
        ensures
            decoder.seen() == Seq::<u64>::empty(),
            decoder.pending(),
    {
        LayoutDecoder {
            phase: Phase::Count,
            argc: 0,
            argv: Vec::new(),
            envp: Vec::new(),
            seen: Ghost(Seq::empty()),
        }
    }

    /// Says whether the decoder needs another word.
    pub fn is_pending(&self) -> (pending: bool)
        ensures
            pending == self.pending(),
    {
        proof {
            use_type_invariant(self);
            self.lemma_phase();
        }
        match self.phase {
            Phase::Count | Phase::Arguments | Phase::Environment => true,
            Phase::Complete | Phase::Failed(_) => false,
        }
    }

    /// Takes in the next word of the image.
    ///
    /// A decoder that needs no further word leaves `word` aside and stays as
    /// it is.
    pub fn feed(self, word: u64) -> (next: Self)
        ensures
            next.seen() == if self.pending() {
                self.seen().push(word)
            } else {
                self.seen()
            },
    {
        proof {
            use_type_invariant(&self);
            self.lemma_phase();
        }
        let ghost before = self.seen@;
        let ghost after = before.push(word);
        let LayoutDecoder { phase, argc, mut argv, mut envp, seen } = self;
        match phase {
            Phase::Count => LayoutDecoder {
                phase: Phase::Arguments,
                argc: word,
                argv,
                envp,
                seen: Ghost(after),
            },
            Phase::Arguments => {
                if (argv.len() as u64) < argc {
                    if word == 0 {
                        proof {
                            let place = argv@.len() as int + 1;
                            assert(after[place] == 0);
                            assert(after[0] == argc);
                        }
                        LayoutDecoder {
                            phase: Phase::Failed(LayoutFault::NullArgument),
                            argc,
                            argv,
                            envp,
                            seen: Ghost(after),
                        }
                    } else {
                        argv.push(word);
                        LayoutDecoder { phase: Phase::Arguments, argc, argv, envp, seen: Ghost(after) }
                    }
                } else {
                    if word == 0 {
                        LayoutDecoder {
                            phase: Phase::Environment,
                            argc,
                            argv,
                            envp,
                            seen: Ghost(after),
                        }
                    } else {
                        proof {
                            assert(after[0] == argc);
                            assert(after[argc + 1] == word);
                            assert(forall|i: int| 1 <= i <= argc ==> after[i] == argv@[i - 1]);
                        }
                        LayoutDecoder {
                            phase: Phase::Failed(LayoutFault::MissingTerminator),
                            argc,
                            argv,
                            envp,
                            seen: Ghost(after),
                        }
                    }
                }
            },
            Phase::Environment => {
                if word == 0 {
                    LayoutDecoder { phase: Phase::Complete, argc, argv, envp, seen: Ghost(after) }
                } else {
                    envp.push(word);
                    LayoutDecoder { phase: Phase::Environment, argc, argv, envp, seen: Ghost(after) }
                }
            },
            Phase::Complete => LayoutDecoder { phase, argc, argv, envp, seen },
            Phase::Failed(_) => LayoutDecoder { phase, argc, argv, envp, seen },
        }
    }

    /// Ends the decoding: the tables of the words taken in, or what is wrong
    /// with them. A decoder that still needs a word has seen a truncated image.
    pub fn finish(self) -> (outcome: Result<StackLayout, LayoutFault>)
        ensures
            is_layout_of(outcome, self.seen()),
    {
        proof {
            use_type_invariant(&self);
            self.lemma_phase();
        }
        let LayoutDecoder { phase, argc, argv, envp, seen } = self;
        match phase {
            Phase::Count | Phase::Arguments | Phase::Environment => Err(LayoutFault::Truncated),
            Phase::Complete => Ok(StackLayout { argv, envp }),
            Phase::Failed(fault) => Err(fault),
        }
    }
}

/// Reads the two tables off an image.
///
/// The image may go on after the null word that ends the environment table:
/// what follows is not read.
pub fn decode_layout(image: &[u64]) -> (outcome: Result<StackLayout, LayoutFault>)
    ensures
        is_layout_of(outcome, image@),
{
    let mut decoder = LayoutDecoder::new();
    let mut taken: usize = 0;
    while taken < image.len() && decoder.is_pending()
        invariant
            taken <= image@.len(),
            decoder.seen() == image@.take(taken as int),
        decreases image@.len() - taken,
    {
        decoder = decoder.feed(image[taken]);
        assert(image@.take(taken as int).push(image@[taken as int]) =~= image@.take(taken + 1));
        taken += 1;
    }
    proof {
        if decoder.pending() {
            assert(image@.take(taken as int) =~= image@);
        } else {
            lemma_settled_by_front(image@, taken as int);
        }
    }
    decoder.finish()
}

} // verus!
