//! Dumping the log of every forwarding thread to files.

use vstd::prelude::*;
use vstd::string::*;
use crate::ctx::R2;
use crate::text::{indexed_name, spec_indexed_name};

verus! {

/// How the dump of one thread's log ended.
#[derive(Debug, PartialEq, Eq)]
pub enum DumpResult {
    /// The log is in its file.
    Done,
    /// The file could not be made, and why.
    CreateFailed(String),
    /// The log could not be written, and why.
    WriteFailed(String),
}

/// What a dump of all logs does after a dump that failed.
#[derive(Clone, Copy, Debug, PartialEq, Eq, Structural)]
pub enum OnFailure {
    /// It ends at once: the logs of the threads after it are not dumped.
    Stop,
    /// It goes on with the other threads, and reports every failure when
    /// all have had their turn.
    GoOn,
}

/// What is to be done next for a dump of all logs.
#[derive(Debug, PartialEq, Eq)]
pub enum ShowNext {
    /// Dump the log of this thread to the file of this name.
    Dump { thread: usize, name: String },
    /// Every log is in its file.
    Done,
    /// The call ends with this message, which says what failed.
    Failed(String),
}

/// What a `ShowNext` says.
pub enum ShowNextView {
    Dump { thread: usize, name: Seq<char> },
    Done,
    Failed(Seq<char>),
}

impl View for ShowNext {
    type V = ShowNextView;

    open spec fn view(&self) -> ShowNextView {
        match self {
            ShowNext::Dump { thread, name } => ShowNextView::Dump { thread: *thread, name: name@ },
            ShowNext::Done => ShowNextView::Done,
            ShowNext::Failed(msg) => ShowNextView::Failed(msg@),
        }
    }
}

/// The message for a dump that failed: for the thread at place `thread`,
/// asked to dump to files called `filename`.
pub open spec fn spec_failure(filename: Seq<char>, thread: nat, result: DumpResult) -> Seq<char> {
    match result {
        DumpResult::Done => Seq::<char>::empty(),
        DumpResult::CreateFailed(why) => "couldn't create "@ + filename + ": "@ + why@,
        DumpResult::WriteFailed(why) => "couldn't write log "@ + spec_indexed_name(filename, thread)
            + ": "@ + why@,
    }
}

/// The first `upto` dumps all ended well.
pub open spec fn all_done(results: Seq<DumpResult>, upto: int) -> bool {
    forall|k: int| 0 <= k < upto ==> #[trigger] results[k] == DumpResult::Done
}

/// The dump at place `k` is the first that failed.
pub open spec fn first_failure(results: Seq<DumpResult>, k: int) -> bool {
    &&& 0 <= k < results.len()
    &&& results[k] != DumpResult::Done
    &&& all_done(results, k)
}

/// The messages of the dumps that failed among the first `upto`, in the
/// order of the threads, with `; ` between them.
pub open spec fn spec_failures(filename: Seq<char>, results: Seq<DumpResult>, upto: int) -> Seq<
    char,
>
    decreases upto,
{
    if upto <= 0 {
        Seq::<char>::empty()
    } else if results[upto - 1] == DumpResult::Done {
        spec_failures(filename, results, upto - 1)
    } else if all_done(results, upto - 1) {
        spec_failure(filename, (upto - 1) as nat, results[upto - 1])
    } else {
        spec_failures(filename, results, upto - 1) + "; "@ + spec_failure(
            filename,
            (upto - 1) as nat,
            results[upto - 1],
        )
    }
}

/// What is to be done next when the logs of `nthreads` threads are dumped
/// to files called `filename` and the dumps so far, in the order of the
/// threads, ended as `results` say. The log of the thread at place `t` goes
/// to the file called `filename`, a colon, and `t`. With `OnFailure::Stop`
/// the first dump that failed ends the call, and the logs of the threads
/// after it are not dumped. With `OnFailure::GoOn` every thread has its
/// turn, and the call then ends with the messages of all dumps that failed.
pub open spec fn spec_show(
    nthreads: nat,
    on_failure: OnFailure,
    filename: Seq<char>,
    results: Seq<DumpResult>,
) -> ShowNextView {
    if on_failure == OnFailure::Stop && exists|k: int|
        k < nthreads && first_failure(results, k) {
        let k = choose|k: int| k < nthreads && first_failure(results, k);
        ShowNextView::Failed(spec_failure(filename, k as nat, results[k]))
    } else if results.len() < nthreads {
        ShowNextView::Dump {
            thread: results.len() as usize,
            name: spec_indexed_name(filename, results.len()),
        }
    } else if all_done(results, nthreads as int) {
        ShowNextView::Done
    } else {
        ShowNextView::Failed(spec_failures(filename, results, nthreads as int))
    }
}

/// Where no dump failed there is no message.
pub proof fn lemma_no_failures(filename: Seq<char>, results: Seq<DumpResult>, upto: int)
    requires
        all_done(results, upto),
    ensures
        spec_failures(filename, results, upto) == Seq::<char>::empty(),
    decreases upto,
{
    if upto > 0 {
        assert(results[upto - 1] == DumpResult::Done);
        lemma_no_failures(filename, results, upto - 1);
    }
}

/// There is at most one first failure.
pub proof fn lemma_first_failure(results: Seq<DumpResult>, k: int, other: int)
    requires
        first_failure(results, k),
        first_failure(results, other),
    ensures
        k == other,
{
    if k < other {
        assert(results[k] == DumpResult::Done);
    } else if other < k {
        assert(results[other] == DumpResult::Done);
    }
}

/// The calls of the control plane that deal with logs.
pub struct LogApis {
    nthreads: usize,
    on_failure: OnFailure,
}

impl LogApis {
    /// The number of threads whose logs are dumped.
    pub closed spec fn spec_nthreads(&self) -> nat {
        self.nthreads as nat
    }

    /// What a dump of all logs does after a dump that failed.
    pub closed spec fn spec_on_failure(&self) -> OnFailure {
        self.on_failure
    }

    /// The log calls for the threads that `r2` knows. A dump of all logs
    /// ends at the first dump that fails.
    pub fn new(r2: &R2) -> (apis: LogApis)
        ensures
            apis.spec_nthreads() == r2.spec_nthreads(),
            apis.spec_on_failure() == OnFailure::Stop,
    {
        LogApis { nthreads: r2.nthreads(), on_failure: OnFailure::Stop }
    }

    /// The log calls for the threads that `r2` knows, with a dump of all
    /// logs that does `on_failure` after a dump that failed.
    pub fn with(r2: &R2, on_failure: OnFailure) -> (apis: LogApis)
        ensures
            apis.spec_nthreads() == r2.spec_nthreads(),
            apis.spec_on_failure() == on_failure,
    {
        LogApis { nthreads: r2.nthreads(), on_failure }
    }

    /// The message for a dump that failed.
    pub fn failure(filename: &str, thread: usize, result: &DumpResult) -> (msg: String)
        ensures
            msg@ == spec_failure(filename@, thread as nat, *result),
    {
        match result {
            DumpResult::Done => String::new(),
            DumpResult::CreateFailed(why) => {
                let mut msg = String::from_str("couldn't create ");
                msg.append(filename);
                msg.append(": ");
                msg.append(why.as_str());
                msg
            },
            DumpResult::WriteFailed(why) => {
                let mut msg = String::from_str("couldn't write log ");
                let name = indexed_name(filename, thread);
                msg.append(name.as_str());
                msg.append(": ");
                msg.append(why.as_str());
                msg
            },
        }
    }

    /// The messages of the dumps that failed among those of the first
    /// `upto` threads, with `; ` between them.
    fn failures(filename: &str, results: &Vec<DumpResult>, upto: usize) -> (r: (String, bool))
        requires
            upto <= results@.len(),
        ensures
            r.0@ == spec_failures(filename@, results@, upto as int),
            r.1 == all_done(results@, upto as int),
    {
        let mut msg = String::new();
        let mut clean = true;
        let mut k: usize = 0;
        while k < upto
            invariant
                k <= upto <= results@.len(),
                msg@ == spec_failures(filename@, results@, k as int),
                clean == all_done(results@, k as int),
            decreases upto - k,
        {
            match &results[k] {
                DumpResult::Done => {},
                failed => {
                    proof {
                        if clean {
                            lemma_no_failures(filename@, results@, k as int);
                        }
                    }
                    let ghost before = msg@;
                    if !clean {
                        msg.append("; ");
                    }
                    let one = Self::failure(filename, k, failed);
                    msg.append(one.as_str());
                    assert(clean ==> msg@ =~= one@);
                    assert(!clean ==> msg@ =~= before + "; "@ + one@);
                    clean = false;
                },
            }
            k = k + 1;
            proof {
                if clean {
                    assert(results@[k - 1] == DumpResult::Done);
                }
            }
        }
        (msg, clean)
    }

    /// What is to be done next for a dump of all logs to files called
    /// `filename`, when the dumps so far ended as `results` say.
    pub fn handle_show(&self, filename: &str, results: &Vec<DumpResult>) -> (next: ShowNext)
        ensures
            next@ == spec_show(
                self.spec_nthreads(),
                self.spec_on_failure(),
                filename@,
                results@,
            ),
    {
        let mut k: usize = 0;
        let stop = match self.on_failure {
            OnFailure::Stop => true,
            OnFailure::GoOn => false,
        };
        while stop && k < results.len() && k < self.nthreads
            invariant
                k <= results@.len(),
                k <= self.nthreads,
                stop == (self.on_failure == OnFailure::Stop),
                stop ==> all_done(results@, k as int),
            decreases results@.len() - k,
        {
            match &results[k] {
                DumpResult::Done => {},
                failed => {
                    let msg = Self::failure(filename, k, failed);
                    proof {
                        assert(first_failure(results@, k as int));
                        let found = choose|i: int|
                            i < self.spec_nthreads() && first_failure(results@, i);
                        lemma_first_failure(results@, k as int, found);
                    }
                    return ShowNext::Failed(msg);
                },
            }
            k = k + 1;
        }
        proof {
            if stop && exists|i: int| i < self.spec_nthreads() && first_failure(results@, i) {
                let i = choose|i: int| i < self.spec_nthreads() && first_failure(results@, i);
                assert(results@[i] == DumpResult::Done);
            }
        }
        if results.len() < self.nthreads {
            ShowNext::Dump { thread: results.len(), name: indexed_name(filename, results.len()) }
        } else {
            let (msg, clean) = Self::failures(filename, results, self.nthreads);
            if clean {
                ShowNext::Done
            } else {
                ShowNext::Failed(msg)
            }
        }
    }
}

} // verus!
