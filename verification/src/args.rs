//! The argument cursor: one decoded string per argument, in order.

use crate::exit::classify;
use crate::exit::exit_code;
use crate::exit::kind_of;
use crate::exit::status_of;
use crate::exit::EXIT_FAILURE;
use crate::exit::EXIT_SUCCESS;
use crate::text::decode_arg;
use crate::text::decoded;
use crate::text::outcome_view;
use crate::text::DecodeFault;
use vstd::prelude::*;

verus! {

/// The byte runs that a list of argument slices stands for.
pub open spec fn runs_of(args: Seq<&[u8]>) -> Seq<Seq<u8>> {
    Seq::new(args.len(), |i: int| args[i]@)
}

/// What a step yielded, with the characters of the string in its place.
pub open spec fn option_view(yielded: Option<Result<String, DecodeFault>>) -> Option<
    Result<Seq<char>, DecodeFault>,
> {
    match yielded {
        Some(outcome) => Some(outcome_view(outcome)),
        None => None,
    }
}

/// A cursor over the runs of the arguments of a process.
///
/// Each step decodes the run at the cursor and moves the cursor one place
/// on; the cursor never moves back and never passes the end.
#[derive(Debug, Clone, Copy)]
pub struct ArgIter<'a> {
    args: &'a [&'a [u8]],
    it: usize,
}

impl<'a> ArgIter<'a> {
    /// The runs of all the arguments, those already passed too.
    pub closed spec fn runs(self) -> Seq<Seq<u8>> {
        runs_of(self.args@)
    }

    /// The number of arguments already passed.
    pub closed spec fn position(self) -> int {
        self.it as int
    }

    /// The runs that are still to come.
    pub open spec fn remaining(self) -> Seq<Seq<u8>> {
        self.runs().skip(self.position())
    }

    /// What a step at the cursor yields: the text or the fault of the run at
    /// the cursor, and nothing at the end.
    pub open spec fn yielded(self) -> Option<Result<Seq<char>, DecodeFault>> {
        if 0 <= self.position() < self.runs().len() {
            Some(decoded(self.runs()[self.position()]))
        } else {
            None
        }
    }

    /// The cursor as one step leaves it: one place on, or at the end still.
    pub closed spec fn step(self) -> Self {
        if self.it < self.args@.len() {
            ArgIter { args: self.args, it: (self.it + 1) as usize }
        } else {
            self
        }
    }

    /// The cursor as `k` steps leave it.
    pub open spec fn stepped(self, k: nat) -> Self
        decreases k,
    {
        if k == 0 {
            self
        } else {
            self.step().stepped((k - 1) as nat)
        }
    }

    #[verifier::type_invariant]
    spec fn in_bounds(self) -> bool {
        self.it <= self.args@.len()
    }

    /// A step keeps the runs and moves the cursor one place on, but not past
    /// the end.
    pub proof fn lemma_step(self)
        ensures
            self.step().runs() == self.runs(),
            self.step().position() == if self.position() < self.runs().len() {
                self.position() + 1
            } else {
                self.position()
            },
    {
        assert(self.args.len() == self.args@.len());
    }

    /// Steps yield the runs that are still to come one by one, in their
    /// order and none left out: step number `k`, counted from zero, yields
    /// run number `k` of them, and the steps after the last run yield nothing.
    pub proof fn lemma_steps_yield_runs_in_order(self, k: nat)
        requires
            self.position() <= self.runs().len(),
        ensures
            self.stepped(k).runs() == self.runs(),
            k < self.remaining().len() ==> self.stepped(k).position() == self.position() + k,
            k < self.remaining().len() ==> self.stepped(k).yielded() == Some(
                decoded(self.remaining()[k as int]),
            ),
            k >= self.remaining().len() ==> self.stepped(k).position() == self.runs().len(),
            k >= self.remaining().len() ==> self.stepped(k).yielded() is None,
        decreases k,
    {
        self.lemma_step();
        if k > 0 {
            self.step().lemma_steps_yield_runs_in_order((k - 1) as nat);
        }
    }

    /// A cursor in front of the first of `args`.
    pub fn new(args: &'a [&'a [u8]]) -> (cursor: Self)
        ensures
            cursor.runs() == runs_of(args@),
            cursor.position() == 0,
    {
        ArgIter { args, it: 0 }
    }

    /// Decodes the argument at the cursor and moves one place on.
    ///
    /// At the end it returns `None` and stays where it is. Before the end it
    /// returns the text of the run at the cursor, or the fault of that run,
    /// and in both cases the run is passed.
    pub fn next(&mut self) -> (res: Option<Result<String, DecodeFault>>)
        ensures
            option_view(res) == old(self).yielded(),
            *final(self) == old(self).step(),
            final(self).runs() == old(self).runs(),
            final(self).position() == if res is Some {
                old(self).position() + 1
            } else {
                old(self).position()
            },
            res is Some <==> old(self).position() < old(self).runs().len(),
            res is None <==> old(self).position() == old(self).runs().len(),
    {
        proof {
            use_type_invariant(&*self);
        }
        if self.it < self.args.len() {
            let outcome = decode_arg(self.args[self.it]);
            self.it += 1;
            Some(outcome)
        } else {
            None
        }
    }
}

/// The characters of each of `lines`.
pub open spec fn texts(lines: Seq<String>) -> Seq<Seq<char>> {
    Seq::new(lines.len(), |i: int| lines[i]@)
}

/// The runs before place `k` all hold text, and the run at `k`, where there
/// is one, holds none.
pub open spec fn stops_at(runs: Seq<Seq<u8>>, k: int) -> bool {
    &&& 0 <= k <= runs.len()
    &&& forall|i: int| 0 <= i < k ==> decoded(runs[i]) is Ok
    &&& k < runs.len() ==> decoded(runs[k]) is Err
}

/// The number of runs in front of the first one that holds no text.
pub open spec fn clean_len(runs: Seq<Seq<u8>>) -> int {
    choose|k: int| stops_at(runs, k)
}

/// The fault of the first run that holds no text.
pub open spec fn first_fault(runs: Seq<Seq<u8>>) -> Option<DecodeFault> {
    let k = clean_len(runs);
    if k < runs.len() {
        Some(decoded(runs[k])->Err_0)
    } else {
        None
    }
}

/// The lines that a pass over `runs` puts out: the texts after the first,
/// up to the first run that holds none. The first run names the program and is
/// decoded like the others, but not put out.
pub open spec fn printed(runs: Seq<Seq<u8>>) -> Seq<Seq<char>> {
    let k = clean_len(runs);
    Seq::new(
        if k >= 1 {
            (k - 1) as nat
        } else {
            0
        },
        |i: int| decoded(runs[i + 1])->Ok_0,
    )
}

/// The status that a process ends with after a pass over `runs`.
pub open spec fn status_after(runs: Seq<Seq<u8>>) -> i32 {
    match first_fault(runs) {
        None => status_of(None),
        Some(fault) => status_of(Some(kind_of(fault))),
    }
}

/// What a pass over the arguments put out, and the fault that stopped it.
#[derive(Debug)]
pub struct RunReport {
    /// The lines to put out, in order.
    pub lines: Vec<String>,
    /// The fault that ended the pass, if one did.
    pub fault: Option<DecodeFault>,
}

impl RunReport {
    /// The status that the process ends with after this pass.
    pub open spec fn status(self) -> i32 {
        match self.fault {
            None => status_of(None),
            Some(fault) => status_of(Some(kind_of(fault))),
        }
    }

    /// The status to end the process with after this pass: 0 where no fault
    /// stopped it, 1 where one did.
    pub fn exit_code(&self) -> (code: i32)
        ensures
            code == self.status(),
            self.fault is None <==> code == 0,
            self.fault is Some <==> code == 1,
    {
        match self.fault {
            None => exit_code(None),
            Some(fault) => exit_code(Some(classify(fault))),
        }
    }
}

/// Only one place meets `stops_at`.
pub proof fn lemma_stop_unique(runs: Seq<Seq<u8>>, k: int)
    requires
        stops_at(runs, k),
    ensures
        clean_len(runs) == k,
{
    let m = clean_len(runs);
    assert(stops_at(runs, m));
    if m < k {
        assert(decoded(runs[m]) is Ok);
    }
    if k < m {
        assert(decoded(runs[k]) is Ok);
    }
}

/// Every row of runs has a place where a pass over it stops: `clean_len`
/// meets `stops_at`.
pub proof fn lemma_stops_somewhere(runs: Seq<Seq<u8>>)
    ensures
        stops_at(runs, clean_len(runs)),
    decreases runs.len(),
{
    if runs.len() == 0 {
        assert(stops_at(runs, 0));
    } else {
        let front = runs.drop_last();
        lemma_stops_somewhere(front);
        let k = clean_len(front);
        let stop = if k == front.len() && decoded(runs[k]) is Ok {
            k + 1
        } else {
            k
        };
        assert(forall|i: int| 0 <= i < front.len() ==> front[i] == runs[i]);
        assert(stops_at(runs, stop));
    }
}

/// Where every run holds text, a pass over `runs` ends without fault and puts
/// out the text of every run but the first: as many lines as there are runs
/// after the first, in the order of the runs, none left out.
pub proof fn lemma_clean_run_prints_all(runs: Seq<Seq<u8>>)
    requires
        forall|i: int| 0 <= i < runs.len() ==> decoded(runs[i]) is Ok,
    ensures
        first_fault(runs) is None,
        status_after(runs) == EXIT_SUCCESS,
        runs.len() >= 1 ==> printed(runs).len() == runs.len() - 1,
        forall|i: int|
            0 <= i < printed(runs).len() ==> decoded(runs[i + 1]) == Ok::<Seq<char>, DecodeFault>(
                #[trigger] printed(runs)[i],
            ),
{
    lemma_stop_unique(runs, runs.len() as int);
}

/// A pass over no argument at all, or over the name of the program alone,
/// puts out no line, and ends with status 0 unless that name holds no text.
pub proof fn lemma_lone_name_prints_nothing(runs: Seq<Seq<u8>>)
    requires
        runs.len() <= 1,
    ensures
        printed(runs).len() == 0,
        (forall|i: int| 0 <= i < runs.len() ==> decoded(runs[i]) is Ok) ==> status_after(runs)
            == EXIT_SUCCESS,
{
    lemma_stops_somewhere(runs);
    lemma_status_tells_fault(runs);
}

/// The status after a pass is 0 or 1: 0 exactly where every run holds text,
/// and 1 exactly where one of them holds none, whatever its fault.
pub proof fn lemma_status_tells_fault(runs: Seq<Seq<u8>>)
    ensures
        status_after(runs) == EXIT_SUCCESS || status_after(runs) == EXIT_FAILURE,
        status_after(runs) == EXIT_SUCCESS <==> forall|i: int|
            0 <= i < runs.len() ==> decoded(runs[i]) is Ok,
        status_after(runs) == EXIT_FAILURE <==> exists|i: int|
            0 <= i < runs.len() && decoded(runs[i]) is Err,
{
    lemma_stops_somewhere(runs);
    let k = clean_len(runs);
    if k < runs.len() {
        assert(decoded(runs[k]) is Err);
    }
}

/// Passes the first of the remaining arguments, then decodes the others in
/// order and collects their texts as lines.
///
/// The first argument is decoded too, so a fault in it stops the pass before
/// any line. The pass ends at the end of the arguments, or at the first run
/// without text, whose fault the report then holds.
pub fn run_with_args(args: ArgIter) -> (report: RunReport)
    ensures
        texts(report.lines@) == printed(args.remaining()),
        report.fault == first_fault(args.remaining()),
        report.status() == status_after(args.remaining()),
        forall|i: int|
            0 <= i < report.lines@.len() ==> decoded(args.remaining()[i + 1]) == Ok::<
                Seq<char>,
                DecodeFault,
            >(#[trigger] report.lines@[i]@),
{
    let mut cursor = args;
    let mut lines: Vec<String> = Vec::new();
    let ghost runs = args.remaining();
    let ghost start = args.position();
    proof {
        use_type_invariant(&args);
    }
    match cursor.next() {
        None => {
            proof {
                lemma_stop_unique(runs, 0);
            }
            return RunReport { lines, fault: None };
        },
        Some(Err(fault)) => {
            proof {
                lemma_stop_unique(runs, 0);
            }
            return RunReport { lines, fault: Some(fault) };
        },
        Some(Ok(_)) => {},
    }
    loop
        invariant
            start == args.position(),
            runs == args.remaining(),
            cursor.runs() == args.runs(),
            0 <= start < cursor.position() <= args.runs().len(),
            lines@.len() == cursor.position() - start - 1,
            forall|i: int| 0 <= i < cursor.position() - start ==> decoded(runs[i]) is Ok,
            forall|i: int| 0 <= i < lines@.len() ==> #[trigger] lines@[i]@ == decoded(runs[i + 1])->Ok_0,
        decreases args.runs().len() - cursor.position(),
    {
        let ghost place = cursor.position() - start;
        match cursor.next() {
            None => {
                proof {
                    lemma_stop_unique(runs, place);
                    assert(texts(lines@) =~= printed(runs));
                }
                return RunReport { lines, fault: None };
            },
            Some(Err(fault)) => {
                proof {
                    lemma_stop_unique(runs, place);
                    assert(texts(lines@) =~= printed(runs));
                }
                return RunReport { lines, fault: Some(fault) };
            },
            Some(Ok(text)) => {
                lines.push(text);
            },
        }
    }
}

} // verus!
