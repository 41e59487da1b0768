//! The course of measuring one configuration.
//!
//! A [`Session`] says which operation the device is to perform next, and takes
//! the reply to it. It sets up the program, the queue and the buffers once, then
//! launches the kernel four times and compares each output with the reference.
use vstd::prelude::*;

use crate::matrix::{compare_ref, compared_pairs, comparison_fits, is_mean_squared_error};
use crate::number::{folds_to, lemma_folds_to_empty, lemma_folds_to_push, sum_step, Number};
use crate::problem::{BATCH_SIZE, M, N};

verus! {

/// How often the kernel is launched.
pub const RUNS: usize = 4;

/// An operation of the device.
#[derive(Clone, Copy, Debug, PartialEq, Eq, Structural)]
pub enum Action {
    /// Build the program.
    Build,
    /// Create the kernel.
    CreateKernel,
    /// Create the command queue.
    CreateQueue,
    /// Create the buffer of the first operand.
    CreateBufferA,
    /// Create the buffer of the second operand.
    CreateBufferB,
    /// Create the buffer of the products.
    CreateBufferC,
    /// Write the first operand.
    WriteA,
    /// Write the second operand.
    WriteB,
    /// Wait until both operands are written.
    FinishWrites,
    /// Launch the kernel.
    Launch,
    /// Wait until the kernel is done.
    FinishLaunch,
    /// Ask when the kernel started.
    ReadStart,
    /// Ask when the kernel ended.
    ReadEnd,
    /// Read the products.
    ReadOutput,
    /// Wait until the products are read.
    FinishRead,
}

/// The reply to an operation.
pub enum Reply<'a> {
    /// It was done.
    Done,
    /// It was done, and gave a time in nanoseconds.
    Time(u64),
    /// It was done, and these are the products.
    Output(&'a [u16]),
    /// It failed, with this description.
    Failed(&'a str),
}

/// What a session has come to.
pub struct Session<T> {
    /// The operation to perform next.
    pub action: Action,
    /// How many runs are over.
    pub run: usize,
    /// When the kernel last started.
    pub start: u64,
    /// The time of all kernels so far.
    pub total_time: u64,
    /// The error of all runs so far.
    pub total_error: T,
}

/// Where a reply leads.
pub enum Progress<T> {
    /// The session goes on.
    Continue(Session<T>),
    /// All runs are over: the mean time in milliseconds, and the mean error.
    Finished(T, T),
    /// An operation failed.
    Failed(String),
}

/// Which operation it is, in order.
pub open spec fn stage(action: Action) -> int {
    match action {
        Action::Build => 0,
        Action::CreateKernel => 1,
        Action::CreateQueue => 2,
        Action::CreateBufferA => 3,
        Action::CreateBufferB => 4,
        Action::CreateBufferC => 5,
        Action::WriteA => 6,
        Action::WriteB => 7,
        Action::FinishWrites => 8,
        Action::Launch => 9,
        Action::FinishLaunch => 10,
        Action::ReadStart => 11,
        Action::ReadEnd => 12,
        Action::ReadOutput => 13,
        Action::FinishRead => 14,
    }
}

/// The operation that follows within the setup or the same run.
pub open spec fn following(action: Action) -> Action {
    match action {
        Action::Build => Action::CreateKernel,
        Action::CreateKernel => Action::CreateQueue,
        Action::CreateQueue => Action::CreateBufferA,
        Action::CreateBufferA => Action::CreateBufferB,
        Action::CreateBufferB => Action::CreateBufferC,
        Action::CreateBufferC => Action::WriteA,
        Action::WriteA => Action::WriteB,
        Action::WriteB => Action::FinishWrites,
        Action::FinishWrites => Action::Launch,
        Action::Launch => Action::FinishLaunch,
        Action::FinishLaunch => Action::ReadStart,
        Action::ReadStart => Action::ReadEnd,
        Action::ReadEnd => Action::ReadOutput,
        Action::ReadOutput => Action::FinishRead,
        Action::FinishRead => Action::Launch,
    }
}

/// How a failure of the operation is labelled.
pub open spec fn label_text(action: Action) -> Seq<char> {
    match action {
        Action::Build => "build"@,
        Action::CreateKernel => "kernel"@,
        Action::CreateQueue => "queue"@,
        Action::CreateBufferA => "buf_a"@,
        Action::CreateBufferB => "buf_b"@,
        Action::CreateBufferC => "buf_c"@,
        Action::WriteA => "write_a"@,
        Action::WriteB => "write_b"@,
        Action::FinishWrites => "finish"@,
        Action::Launch => "enqueue"@,
        Action::FinishLaunch => "finish2"@,
        Action::ReadStart => "prof_start"@,
        Action::ReadEnd => "prof_end"@,
        Action::ReadOutput => "read_c"@,
        Action::FinishRead => "finish3"@,
    }
}

impl Action {
    /// The operation that follows within the setup or the same run.
    fn next(self) -> (action: Action)
        ensures
            action == following(self),
    {
        match self {
            Action::Build => Action::CreateKernel,
            Action::CreateKernel => Action::CreateQueue,
            Action::CreateQueue => Action::CreateBufferA,
            Action::CreateBufferA => Action::CreateBufferB,
            Action::CreateBufferB => Action::CreateBufferC,
            Action::CreateBufferC => Action::WriteA,
            Action::WriteA => Action::WriteB,
            Action::WriteB => Action::FinishWrites,
            Action::FinishWrites => Action::Launch,
            Action::Launch => Action::FinishLaunch,
            Action::FinishLaunch => Action::ReadStart,
            Action::ReadStart => Action::ReadEnd,
            Action::ReadEnd => Action::ReadOutput,
            Action::ReadOutput => Action::FinishRead,
            Action::FinishRead => Action::Launch,
        }
    }

    /// How a failure of the operation is labelled.
    pub fn label(self) -> (label: &'static str)
        ensures
            label@ == label_text(self),
    {
        match self {
            Action::Build => "build",
            Action::CreateKernel => "kernel",
            Action::CreateQueue => "queue",
            Action::CreateBufferA => "buf_a",
            Action::CreateBufferB => "buf_b",
            Action::CreateBufferC => "buf_c",
            Action::WriteA => "write_a",
            Action::WriteB => "write_b",
            Action::FinishWrites => "finish",
            Action::Launch => "enqueue",
            Action::FinishLaunch => "finish2",
            Action::ReadStart => "prof_start",
            Action::ReadEnd => "prof_end",
            Action::ReadOutput => "read_c",
            Action::FinishRead => "finish3",
        }
    }
}

/// `result` is the mean time of the runs in milliseconds, where `total` is their
/// time in nanoseconds.
pub open spec fn is_mean_time<T: Number>(total: u64, result: T) -> bool {
    exists|nanos: T, micro: T, millis: T, runs: T|
        {
            &&& call_ensures(T::from_u64, (total,), nanos)
            &&& call_ensures(T::decimal, (1i32, -6i32), micro)
            &&& #[trigger] call_ensures(T::times, (nanos, micro), millis)
            &&& call_ensures(T::decimal, (4i32, 0i32), runs)
            &&& #[trigger] call_ensures(T::over, (millis, runs), result)
        }
}

/// `result` is the mean error of the runs, where `total` is their sum.
pub open spec fn is_mean_error<T: Number>(total: T, result: T) -> bool {
    exists|runs: T|
        {
            &&& call_ensures(T::decimal, (4i32, 0i32), runs)
            &&& #[trigger] call_ensures(T::over, (total, runs), result)
        }
}

/// `error` is the mean squared error of the products in `output`.
pub open spec fn is_output_error<T: Number>(output: Seq<u16>, c_ref: Seq<u16>, error: T) -> bool {
    is_mean_squared_error(
        compared_pairs(
            output,
            c_ref,
            N as int,
            M as int,
            BATCH_SIZE as int,
            N as int,
            M as int,
        ),
        (N * M * BATCH_SIZE) as usize,
        error,
    )
}

/// The products in an output can be compared with the reference.
pub open spec fn output_fits(output: Seq<u16>, c_ref: Seq<u16>) -> bool {
    comparison_fits(
        output.len() as int,
        c_ref.len() as int,
        N as int,
        M as int,
        BATCH_SIZE as int,
        N as int,
        M as int,
    )
}

impl<T: Number> Session<T> {
    /// The session has runs to go, and the setup comes before the first of them.
    pub open spec fn valid(self) -> bool {
        &&& self.run < RUNS
        &&& stage(self.action) < 9 ==> self.run == 0
    }

    /// How many operations were done.
    pub open spec fn steps_taken(self) -> int {
        stage(self.action) + 6 * self.run
    }

    /// The reply is one that the operation can have, and the time it gives can be
    /// added up.
    pub open spec fn accepts(self, reply: Reply, c_ref: Seq<u16>) -> bool {
        match reply {
            Reply::Failed(_) => true,
            Reply::Done => self.action != Action::ReadStart && self.action != Action::ReadEnd
                && self.action != Action::FinishRead,
            Reply::Time(time) => {
                ||| self.action == Action::ReadStart
                ||| self.action == Action::ReadEnd && self.start <= time && self.total_time + (time
                    - self.start) <= u64::MAX
            },
            Reply::Output(output) => self.action == Action::FinishRead && output_fits(
                output@,
                c_ref,
            ),
        }
    }

    /// The session is the beginning of one.
    pub open spec fn is_first(self) -> bool {
        &&& self.action == Action::Build
        &&& self.run == 0
        &&& self.total_time == 0
        &&& call_ensures(T::decimal, (0i32, 0i32), self.total_error)
    }

    /// The reply leads from this session to `progress`.
    pub open spec fn leads_to(
        self,
        reply: Reply,
        c_ref: Seq<u16>,
        progress: Progress<T>,
    ) -> bool {
        match reply {
            Reply::Failed(detail) => progress matches Progress::Failed(text) && text@
                == label_text(self.action) + ": "@ + detail@,
            Reply::Done => progress == Progress::Continue(
                Session { action: following(self.action), ..self },
            ),
            Reply::Time(time) => progress == Progress::Continue(
                if self.action == Action::ReadStart {
                    Session { action: Action::ReadEnd, start: time, ..self }
                } else {
                    Session {
                        action: Action::ReadOutput,
                        total_time: (self.total_time + (time - self.start)) as u64,
                        ..self
                    }
                },
            ),
            Reply::Output(output) => exists|error: T, total_error: T|
                {
                    &&& is_output_error(output@, c_ref, error)
                    &&& #[trigger] call_ensures(T::plus, (self.total_error, error), total_error)
                    &&& if self.run + 1 < RUNS {
                        progress == Progress::Continue(
                            Session {
                                action: Action::Launch,
                                run: (self.run + 1) as usize,
                                total_error,
                                ..self
                            },
                        )
                    } else {
                        &&& progress matches Progress::Finished(mean_time, mean_error)
                        &&& is_mean_time(self.total_time, mean_time)
                        &&& is_mean_error(total_error, mean_error)
                    }
                },
        }
    }

    /// The beginning of a session.
    pub fn first() -> (session: Self)
        ensures
            session.is_first(),
            session.valid(),
            session.steps_taken() == 0,
    {
        Session {
            action: Action::Build,
            run: 0,
            start: 0,
            total_time: 0,
            total_error: T::decimal(0, 0),
        }
    }

    /// Takes the reply to the operation that was to be performed. `c_ref` are the
    /// expected products.
    pub fn step(self, reply: Reply, c_ref: &[u16]) -> (progress: Progress<T>)
        requires
            self.valid(),
            self.accepts(reply, c_ref@),
        ensures
            self.leads_to(reply, c_ref@, progress),
    {
        match reply {
            Reply::Failed(detail) => {
                let mut text: String = String::new();
                text.append(self.action.label());
                text.append(": ");
                text.append(detail);
                Progress::Failed(text)
            },
            Reply::Done => Progress::Continue(
                Session { action: self.action.next(), ..self },
            ),
            Reply::Time(time) => {
                if self.action == Action::ReadStart {
                    Progress::Continue(Session { action: Action::ReadEnd, start: time, ..self })
                } else {
                    Progress::Continue(
                        Session {
                            action: Action::ReadOutput,
                            total_time: self.total_time + (time - self.start),
                            ..self
                        },
                    )
                }
            },
            Reply::Output(output) => {
                let error: T = compare_ref(output, c_ref, N, M, BATCH_SIZE, N, M);
                let total_error = self.total_error.plus(error);
                if self.run + 1 < RUNS {
                    Progress::Continue(
                        Session {
                            action: Action::Launch,
                            run: self.run + 1,
                            total_error,
                            ..self
                        },
                    )
                } else {
                    let mean_time = T::from_u64(self.total_time).times(T::decimal(1, -6)).over(
                        T::decimal(4, 0),
                    );
                    let mean_error = total_error.over(T::decimal(4, 0));
                    Progress::Finished(mean_time, mean_error)
                }
            },
        }
    }
}

/// A session that meets no failure performs its operations in one fixed order:
/// every reply leads one step further, and the last one of 33 finishes it.
pub proof fn law_session_advances<T: Number>(
    session: Session<T>,
    reply: Reply,
    c_ref: Seq<u16>,
    progress: Progress<T>,
)
    requires
        session.valid(),
        session.accepts(reply, c_ref),
        session.leads_to(reply, c_ref, progress),
    ensures
        match progress {
            Progress::Continue(next) => {
                &&& reply !is Failed
                &&& next.valid()
                &&& next.steps_taken() == session.steps_taken() + 1
                &&& next.steps_taken() < 33
            },
            Progress::Finished(_, _) => reply !is Failed && session.steps_taken() == 32,
            Progress::Failed(_) => reply is Failed,
        },
{
}

/// `sessions` is a session from its beginning to its last operation, and
/// `replies` are the replies that led from each to the next.
pub open spec fn is_course<T: Number>(
    sessions: Seq<Session<T>>,
    replies: Seq<Reply>,
    c_ref: Seq<u16>,
) -> bool {
    &&& sessions.len() == 33
    &&& replies.len() == 33
    &&& sessions[0].is_first()
    &&& forall|k: int|
        0 <= k < 33 ==> sessions[k].accepts(#[trigger] replies[k], c_ref)
    &&& forall|k: int|
        0 <= k < 32 ==> sessions[k].leads_to(
            #[trigger] replies[k],
            c_ref,
            Progress::Continue(sessions[k + 1]),
        )
}

/// How long the kernel took in run `run`, by the replies.
pub open spec fn kernel_time(replies: Seq<Reply>, run: int) -> int {
    replies[12 + 6 * run]->Time_0 - replies[11 + 6 * run]->Time_0
}

/// How long the kernel took in the first `runs` runs, by the replies.
pub open spec fn total_kernel_time(replies: Seq<Reply>, runs: nat) -> int
    decreases runs,
{
    if runs == 0 {
        0
    } else {
        total_kernel_time(replies, (runs - 1) as nat) + kernel_time(replies, runs - 1)
    }
}

/// `errors` are the errors of the first runs, by the replies.
pub open spec fn are_run_errors<T: Number>(
    replies: Seq<Reply>,
    c_ref: Seq<u16>,
    errors: Seq<T>,
) -> bool {
    forall|run: int|
        0 <= run < errors.len() ==> is_output_error(
            replies[14 + 6 * run]->Output_0@,
            c_ref,
            #[trigger] errors[run],
        )
}

/// Where a session stands after `k` operations.
pub(crate) proof fn lemma_course<T: Number>(
    sessions: Seq<Session<T>>,
    replies: Seq<Reply>,
    c_ref: Seq<u16>,
    k: int,
) -> (errors: Seq<T>)
    requires
        is_course(sessions, replies, c_ref),
        0 <= k < 33,
    ensures
        sessions[k].valid(),
        sessions[k].steps_taken() == k,
        sessions[k].action == Action::ReadEnd ==> sessions[k].start == replies[k - 1]->Time_0,
        sessions[k].total_time == total_kernel_time(
            replies,
            if stage(sessions[k].action) > 12 {
                (sessions[k].run + 1) as nat
            } else {
                sessions[k].run as nat
            },
        ),
        errors.len() == sessions[k].run,
        are_run_errors(replies, c_ref, errors),
        folds_to(
            sum_step::<T>(),
            sessions[0].total_error,
            errors,
            sessions[k].total_error,
        ),
    decreases k,
{
    let zero = sessions[0].total_error;
    if k == 0 {
        lemma_folds_to_empty(sum_step::<T>(), zero, Seq::<T>::empty());
        Seq::empty()
    } else {
        let before = sessions[k - 1];
        let after = sessions[k];
        let reply = replies[k - 1];
        let errors = lemma_course(sessions, replies, c_ref, k - 1);
        assert(before.accepts(reply, c_ref));
        assert(before.leads_to(reply, c_ref, Progress::Continue(after)));
        law_session_advances(before, reply, c_ref, Progress::Continue(after));
        if before.action == Action::FinishRead {
            let output = reply->Output_0;
            let (error, total_error) = choose|error: T, total_error: T|
                {
                    &&& is_output_error(output@, c_ref, error)
                    &&& #[trigger] call_ensures(T::plus, (before.total_error, error), total_error)
                    &&& Progress::Continue(after) == Progress::Continue(
                        Session {
                            action: Action::Launch,
                            run: (before.run + 1) as usize,
                            total_error,
                            ..before
                        },
                    )
                };
            lemma_folds_to_push(
                sum_step::<T>(),
                zero,
                errors,
                before.total_error,
                error,
                total_error,
            );
            errors.push(error)
        } else {
            errors
        }
    }
}

/// A session that meets no failure reports the mean, over its four runs, of the
/// time between the start and the end of the kernel, and of the error of the
/// output.
pub proof fn law_session_reports_means<T: Number>(
    sessions: Seq<Session<T>>,
    replies: Seq<Reply>,
    c_ref: Seq<u16>,
    mean_time: T,
    mean_error: T,
)
    requires
        is_course(sessions, replies, c_ref),
        sessions[32].leads_to(replies[32], c_ref, Progress::Finished(mean_time, mean_error)),
    ensures
        0 <= total_kernel_time(replies, RUNS as nat) <= u64::MAX,
        is_mean_time(total_kernel_time(replies, RUNS as nat) as u64, mean_time),
        exists|errors: Seq<T>, total: T|
            {
                &&& errors.len() == RUNS
                &&& are_run_errors(replies, c_ref, errors)
                &&& #[trigger] folds_to(
                    sum_step::<T>(),
                    sessions[0].total_error,
                    errors,
                    total,
                )
                &&& is_mean_error(total, mean_error)
            },
{
    let last = sessions[32];
    let errors = lemma_course(sessions, replies, c_ref, 32);
    assert(last.accepts(replies[32], c_ref));
    let output = replies[32]->Output_0;
    let (error, total) = choose|error: T, total: T|
        {
            &&& is_output_error(output@, c_ref, error)
            &&& #[trigger] call_ensures(T::plus, (last.total_error, error), total)
            &&& is_mean_error(total, mean_error)
        };
    lemma_folds_to_push(
        sum_step::<T>(),
        sessions[0].total_error,
        errors,
        last.total_error,
        error,
        total,
    );
    assert(are_run_errors(replies, c_ref, errors.push(error)));
}

} // verus!
