//! What a whole session comes to.
//!
//! The laws on times and errors read every number through a [`Reading`] and speak
//! of integers.
use vstd::prelude::*;

use crate::layout::lemma_at_covers;
use crate::matrix::compared_pairs;
use crate::matrix_accuracy::{
    is_mean_of_squares, lemma_error_reads, lemma_fold_spoils, lemma_pair_spoils_error,
    lemma_same_total, lemma_sum_step, reads_errors, spreads_unknown, squared_difference, total,
};
use crate::number::{folds_to, is_half_finite, sum_step, Number};
use crate::reading::{
    is_fine, is_near, lemma_near_cancel, reads_constants, reads_integers, reads_products,
    reads_quotients, reads_sums, size, Reading,
};
use crate::session::{
    are_run_errors, is_course, is_mean_error, is_mean_time, is_output_error,
    law_session_reports_means, lemma_course, total_kernel_time, Action, Progress, Reply, Session,
};

verus! {

/// `sessions` is a session from its beginning to its last operation, and every one of
/// `replies` is one that the operation can have and led from it to the next.
pub open spec fn is_played<T: Number>(
    sessions: Seq<Session<T>>,
    replies: Seq<Reply>,
    c_ref: &[u16],
) -> bool {
    &&& sessions.len() == 33
    &&& replies.len() == 33
    &&& call_ensures(Session::<T>::first, (), sessions[0])
    &&& forall|k: int| 0 <= k < 33 ==> sessions[k].accepts(#[trigger] replies[k], c_ref@)
    &&& forall|k: int|
        0 <= k < 32 ==> call_ensures(
            Session::<T>::step,
            (sessions[k], #[trigger] replies[k], c_ref),
            Progress::Continue(sessions[k + 1]),
        )
}

/// A session that was played is a course.
proof fn lemma_played_is_course<T: Number>(
    sessions: Seq<Session<T>>,
    replies: Seq<Reply>,
    c_ref: &[u16],
)
    requires
        is_played(sessions, replies, c_ref),
    ensures
        is_course(sessions, replies, c_ref@),
{
    assert forall|k: int| 0 <= k < 32 implies sessions[k].leads_to(
        #[trigger] replies[k],
        c_ref@,
        Progress::Continue(sessions[k + 1]),
    ) by {
        assert(call_ensures(
            Session::<T>::step,
            (sessions[k], replies[k], c_ref),
            Progress::Continue(sessions[k + 1]),
        ));
    }
}

/// The operations of a session come in the order of the program: the kernel is
/// built and created, the queue and the three buffers are created and both operands
/// written. Then every one of the four runs launches the kernel, waits for it, asks
/// for both times and reads the products.
pub proof fn law_operations_come_in_order<T: Number>(
    sessions: Seq<Session<T>>,
    replies: Seq<Reply>,
    c_ref: &[u16],
    k: int,
)
    requires
        is_played(sessions, replies, c_ref),
        0 <= k < 33,
    ensures
        k == 0 ==> sessions[k].action is Build,
        k == 1 ==> sessions[k].action is CreateKernel,
        k == 2 ==> sessions[k].action is CreateQueue,
        k == 3 ==> sessions[k].action is CreateBufferA,
        k == 4 ==> sessions[k].action is CreateBufferB,
        k == 5 ==> sessions[k].action is CreateBufferC,
        k == 6 ==> sessions[k].action is WriteA,
        k == 7 ==> sessions[k].action is WriteB,
        k == 8 ==> sessions[k].action is FinishWrites,
        k == 9 || k == 15 || k == 21 || k == 27 ==> sessions[k].action is Launch,
        k == 10 || k == 16 || k == 22 || k == 28 ==> sessions[k].action is FinishLaunch,
        k == 11 || k == 17 || k == 23 || k == 29 ==> sessions[k].action is ReadStart,
        k == 12 || k == 18 || k == 24 || k == 30 ==> sessions[k].action is ReadEnd,
        k == 13 || k == 19 || k == 25 || k == 31 ==> sessions[k].action is ReadOutput,
        k == 14 || k == 20 || k == 26 || k == 32 ==> sessions[k].action is FinishRead,
{
    assert(is_course(sessions, replies, c_ref@)) by {
        lemma_played_is_course(sessions, replies, c_ref);
    }
    let errors = lemma_course(sessions, replies, c_ref@, k);
}

/// A session starts with the build, before the first run, and with nothing added up.
pub proof fn law_session_starts_with_nothing<T: Number>(m: Reading<T>, session: Session<T>)
    requires
        reads_constants(m),
        call_ensures(Session::<T>::first, (), session),
    ensures
        session.action is Build,
        session.run == 0,
        session.total_time == 0,
        (m.value)(session.total_error) == 0,
{
    assert(0 * m.unit == 0);
}

/// Every operation has its own label.
pub proof fn law_label_names_the_operation(action: Action, label: &'static str)
    requires
        call_ensures(Action::label, (action,), label),
    ensures
        label@ == (match action {
            Action::Build => "build"@,
            Action::CreateKernel => "kernel"@,
            Action::CreateQueue => "queue"@,
            Action::CreateBufferA => "buf_a"@,
            Action::CreateBufferB => "buf_b"@,
            Action::CreateBufferC => "buf_c"@,
            Action::WriteA => "write_a"@,
            Action::WriteB => "write_b"@,
            Action::FinishWrites => "finish"@,
            Action::Launch => "enqueue"@,
            Action::FinishLaunch => "finish2"@,
            Action::ReadStart => "prof_start"@,
            Action::ReadEnd => "prof_end"@,
            Action::ReadOutput => "read_c"@,
            Action::FinishRead => "finish3"@,
        }),
{
}

/// A failure ends the session with the name of the operation, a colon and the
/// description of the failure.
pub proof fn law_failure_names_the_operation<T: Number>(
    session: Session<T>,
    detail: &str,
    c_ref: &[u16],
    progress: Progress<T>,
)
    requires
        call_ensures(Session::<T>::step, (session, Reply::Failed(detail), c_ref), progress),
    ensures
        progress matches Progress::Failed(text) && text@ == (match session.action {
            Action::Build => "build"@,
            Action::CreateKernel => "kernel"@,
            Action::CreateQueue => "queue"@,
            Action::CreateBufferA => "buf_a"@,
            Action::CreateBufferB => "buf_b"@,
            Action::CreateBufferC => "buf_c"@,
            Action::WriteA => "write_a"@,
            Action::WriteB => "write_b"@,
            Action::FinishWrites => "finish"@,
            Action::Launch => "enqueue"@,
            Action::FinishLaunch => "finish2"@,
            Action::ReadStart => "prof_start"@,
            Action::ReadEnd => "prof_end"@,
            Action::ReadOutput => "read_c"@,
            Action::FinishRead => "finish3"@,
        }) + ": "@ + detail@,
{
}

/// A millionth is off by the precision.
pub open spec fn reads_millionth<T: Number>(m: Reading<T>) -> bool {
    forall|a: T| #[trigger]
        call_ensures(T::decimal, (1i32, -6i32), a) ==> {
            &&& (m.known)(a)
            &&& 0 < (m.value)(a) <= m.unit
            &&& is_near(m.precision, 1_000_000 * (m.value)(a), m.unit, 0)
        }
}

/// What a number of nanoseconds is off by in milliseconds.
#[verifier::rlimit(50)]
proof fn lemma_millis_bound(p: int, u: int, t: int, x: int, c: int, y: int)
    requires
        p >= 1000,
        u > 0,
        t >= 0,
        c > 0,
        is_near(p, x, t * u, 0),
        is_near(p, 1_000_000 * c, u, 0),
        is_near(p, y * u, x * c, u),
    ensures
        p * size(1_000_000 * y - t * u) <= 7 * (t * u) + 1_000_000 * p,
{
    let tu = t * u;
    assert(tu >= 0) by (nonlinear_arith)
        requires
            tu == t * u,
            t >= 0,
            u > 0,
    ;
    assert(0 <= x <= 2 * tu) by (nonlinear_arith)
        requires
            p * size(x - tu) <= tu,
            p >= 1000,
            tu >= 0,
    ;
    let mc = 1_000_000 * c;
    assert(mc <= 2 * u) by (nonlinear_arith)
        requires
            p * size(mc - u) <= u,
            p >= 1000,
            u > 0,
    ;
    let xc = x * c;
    let xu = x * u;
    let tuu = tu * u;
    assert(0 <= xc && 1_000_000 * xc <= 2 * xu) by (nonlinear_arith)
        requires
            xc == x * c,
            xu == x * u,
            0 <= x,
            c > 0,
            1_000_000 * c <= 2 * u,
    ;
    assert(0 <= xu <= 2 * tuu) by (nonlinear_arith)
        requires
            xu == x * u,
            tuu == tu * u,
            0 <= x <= 2 * tu,
            u > 0,
    ;
    let e = mc - u;
    let xe = x * e;
    assert(p * size(xe) <= xu) by (nonlinear_arith)
        requires
            p * size(e) <= u,
            xe == x * e,
            xu == x * u,
            0 <= x,
    {
        assert(size(xe) == x * size(e));
        assert(p * (x * size(e)) == x * (p * size(e)));
        assert(x * (p * size(e)) <= x * u);
    }
    let f = x - tu;
    let fu = f * u;
    assert(p * size(fu) <= tuu) by (nonlinear_arith)
        requires
            p * size(f) <= tu,
            fu == f * u,
            tuu == tu * u,
            u > 0,
    {
        assert(size(fu) == size(f) * u);
        assert(p * (size(f) * u) == (p * size(f)) * u);
    }
    assert(1_000_000 * xc - tuu == xe + fu) by (nonlinear_arith)
        requires
            xc == x * c,
            xe == x * e,
            e == mc - u,
            mc == 1_000_000 * c,
            f == x - tu,
            fu == f * u,
            tuu == tu * u,
    ;
    let yu = y * u;
    let g = yu - xc;
    assert(p * size(g) <= xc + p * u);
    let off = size(1_000_000 * yu - tuu);
    let pu = p * u;
    assert(p * off <= 1_000_000 * (p * size(g)) + p * size(xe) + p * size(fu)) by (nonlinear_arith)
        requires
            off <= 1_000_000 * size(g) + size(xe) + size(fu),
            p >= 1000,
    {
        assert(p * off <= p * (1_000_000 * size(g) + size(xe) + size(fu)));
        assert(p * (1_000_000 * size(g) + size(xe) + size(fu)) == 1_000_000 * (p * size(g)) + p
            * size(xe) + p * size(fu));
    }
    assert(p * off <= 7 * tuu + 1_000_000 * pu);
    let z = 1_000_000 * y - tu;
    assert(1_000_000 * yu - tuu == z * u) by (nonlinear_arith)
        requires
            yu == y * u,
            tuu == tu * u,
            z == 1_000_000 * y - tu,
    ;
    assert(p * size(z) <= 7 * tu + 1_000_000 * p) by (nonlinear_arith)
        requires
            p * off <= 7 * tuu + 1_000_000 * pu,
            off == size(z * u),
            tuu == tu * u,
            pu == p * u,
            u > 0,
    {
        assert(size(z * u) == size(z) * u);
        assert((p * size(z)) * u <= (7 * tu + 1_000_000 * p) * u);
    }
}

/// How a mean time follows from a total.
#[verifier::rlimit(50)]
proof fn lemma_mean_time_reads<T: Number>(m: Reading<T>, time: u64, result: T)
    requires
        is_fine(m),
        reads_constants(m),
        reads_integers(m),
        reads_products(m),
        reads_quotients(m),
        reads_millionth(m),
        4 * (time * m.unit) <= m.top,
        is_mean_time(time, result),
    ensures
        m.precision * size(4_000_000 * (m.value)(result) - time * m.unit) <= 10 * (time * m.unit)
            + 10_000_000 * m.precision,
{
    let p = m.precision;
    let u = m.unit;
    let t = time as int;
    let tu = t * u;
    let (nanos, micro, millis, runs) = choose|nanos: T, micro: T, millis: T, runs: T|
        {
            &&& call_ensures(T::from_u64, (time,), nanos)
            &&& call_ensures(T::decimal, (1i32, -6i32), micro)
            &&& #[trigger] call_ensures(T::times, (nanos, micro), millis)
            &&& call_ensures(T::decimal, (4i32, 0i32), runs)
            &&& #[trigger] call_ensures(T::over, (millis, runs), result)
        };
    let x = (m.value)(nanos);
    let c = (m.value)(micro);
    let y = (m.value)(millis);
    let mean = (m.value)(result);
    assert(tu >= 0) by (nonlinear_arith)
        requires
            tu == t * u,
            t >= 0,
            u > 0,
    ;
    assert(is_near(p, x, tu, 0));
    assert(0 <= x <= 2 * tu) by (nonlinear_arith)
        requires
            p * size(x - tu) <= tu,
            p >= 1000,
            tu >= 0,
    ;
    assert(0 <= x * c <= m.top * u) by (nonlinear_arith)
        requires
            0 <= x <= m.top,
            0 < c <= u,
    ;
    assert(is_near(p, y * u, x * c, u));
    lemma_millis_bound(p, u, t, x, c, y);
    assert(1_000_000 * size(y) <= 2 * tu + 1_000_000) by (nonlinear_arith)
        requires
            p * size(1_000_000 * y - tu) <= 7 * tu + 1_000_000 * p,
            p >= 1000,
            tu >= 0,
    {
        let off = size(1_000_000 * y - tu);
        if off > tu + 1_000_000 {
            assert(p * off >= p * (tu + 1_000_001));
            assert(p * (tu + 1_000_001) == p * tu + 1_000_001 * p);
            assert(p * tu >= 1000 * tu);
        }
    }
    assert((m.value)(runs) == 4 * u);
    assert(size(y) * u <= m.top * (4 * u)) by (nonlinear_arith)
        requires
            size(y) <= m.top,
            u > 0,
    ;
    assert(mean * (4 * u) == (mean * 4) * u) by (nonlinear_arith);
    lemma_near_cancel(p, mean * 4, y, 4, u);
    let o1 = size(1_000_000 * y - tu);
    let o2 = size(4 * mean - y);
    assert(p * size(4_000_000 * mean - tu) <= p * o1 + 1_000_000 * (p * o2)) by (nonlinear_arith)
        requires
            size(4_000_000 * mean - tu) <= o1 + 1_000_000 * o2,
            p >= 1000,
    {
        assert(p * (o1 + 1_000_000 * o2) == p * o1 + 1_000_000 * (p * o2));
    }
    assert(size(mean * 4 - y) == o2);
}

/// A session reports the mean of the four times between the start and the end of
/// the kernel, in milliseconds where those are nanoseconds. Nothing of their total
/// is cut off: the mean is off by the precision only.
pub proof fn law_session_reports_mean_time<T: Number>(
    m: Reading<T>,
    sessions: Seq<Session<T>>,
    replies: Seq<Reply>,
    c_ref: &[u16],
    mean_time: T,
    mean_error: T,
    nanos: int,
)
    requires
        is_fine(m),
        reads_constants(m),
        reads_integers(m),
        reads_products(m),
        reads_quotients(m),
        reads_millionth(m),
        is_played(sessions, replies, c_ref),
        call_ensures(
            Session::<T>::step,
            (sessions[32], replies[32], c_ref),
            Progress::Finished(mean_time, mean_error),
        ),
        nanos == (replies[12]->Time_0 - replies[11]->Time_0) + (replies[18]->Time_0
            - replies[17]->Time_0) + (replies[24]->Time_0 - replies[23]->Time_0) + (
        replies[30]->Time_0 - replies[29]->Time_0),
        4 * (nanos * m.unit) <= m.top,
    ensures
        0 <= nanos,
        m.precision * size(4_000_000 * (m.value)(mean_time) - nanos * m.unit) <= 10 * (nanos
            * m.unit) + 10_000_000 * m.precision,
{
    assert(is_course(sessions, replies, c_ref@)) by {
        lemma_played_is_course(sessions, replies, c_ref);
    }
    law_session_reports_means(sessions, replies, c_ref@, mean_time, mean_error);
    reveal_with_fuel(total_kernel_time, 5);
    assert(total_kernel_time(replies, 4) == nanos);
    lemma_mean_time_reads(m, nanos as u64, mean_time);
}

/// Every reply but a failure moves the session on by one operation. Only the two
/// times of a kernel and the end of a run change what the session holds: the start is
/// kept until the end is known, and then the difference is added to the total. The
/// products of the first three runs lead to the next run, and those of the fourth
/// finish the session.
pub proof fn law_reply_moves_the_session_on<T: Number>(
    session: Session<T>,
    reply: Reply,
    c_ref: &[u16],
    progress: Progress<T>,
)
    requires
        session.valid(),
        session.accepts(reply, c_ref@),
        call_ensures(Session::<T>::step, (session, reply, c_ref), progress),
        reply !is Failed,
    ensures
        progress is Finished <==> session.action is FinishRead && session.run == 3,
        progress matches Progress::Continue(next) ==> {
            &&& session.action is Build ==> next.action is CreateKernel
            &&& session.action is CreateKernel ==> next.action is CreateQueue
            &&& session.action is CreateQueue ==> next.action is CreateBufferA
            &&& session.action is CreateBufferA ==> next.action is CreateBufferB
            &&& session.action is CreateBufferB ==> next.action is CreateBufferC
            &&& session.action is CreateBufferC ==> next.action is WriteA
            &&& session.action is WriteA ==> next.action is WriteB
            &&& session.action is WriteB ==> next.action is FinishWrites
            &&& session.action is FinishWrites ==> next.action is Launch
            &&& session.action is Launch ==> next.action is FinishLaunch
            &&& session.action is FinishLaunch ==> next.action is ReadStart
            &&& session.action is ReadStart ==> next.action is ReadEnd && next.start
                == reply->Time_0
            &&& session.action is ReadEnd ==> next.action is ReadOutput && next.total_time
                - session.total_time == reply->Time_0 - session.start
            &&& session.action is ReadOutput ==> next.action is FinishRead
            &&& session.action is FinishRead ==> next.action is Launch && next.run == session.run
                + 1
            &&& session.action !is ReadStart ==> next.start == session.start
            &&& session.action !is ReadEnd ==> next.total_time == session.total_time
            &&& session.action !is FinishRead ==> next.run == session.run && next.total_error
                == session.total_error
        },
        progress !is Failed,
{
}

/// The error of an output follows from its elements and the expected ones.
proof fn lemma_output_error_reads<T: Number>(
    m: Reading<T>,
    output: Seq<u16>,
    c_ref: Seq<u16>,
    error: T,
)
    requires
        reads_errors(m, 294_912),
        forall|q: int| 0 <= q < 294_912 ==> is_half_finite(#[trigger] output[q]),
        forall|q: int| 0 <= q < 294_912 ==> is_half_finite(#[trigger] c_ref[q]),
        8 * total(294_912, |q: int| squared_difference(m, c_ref[q], output[q])) <= m.top * m.unit,
        is_output_error(output, c_ref, error),
    ensures
        (m.known)(error),
        is_mean_of_squares(
            m,
            (m.value)(error),
            294_912,
            total(294_912, |q: int| squared_difference(m, c_ref[q], output[q])),
        ),
{
    let pairs = compared_pairs(output, c_ref, 32, 256, 36, 32, 256);
    let squares = |q: int| squared_difference(m, c_ref[q], output[q]);
    let found = |l: int| squared_difference(m, pairs[l].0, pairs[l].1);
    assert(36 * 32 * 256 == 294_912);
    assert(pairs.len() == 294_912);
    assert forall|q: int| 0 <= q < 294_912 implies #[trigger] pairs[q] == (c_ref[q], output[q]) by {
        lemma_at_covers(q, 36, 32, 256);
    }
    assert forall|q: int| 0 <= q < 294_912 implies #[trigger] found(q) == squares(q) by {
        assert(pairs[q] == (c_ref[q], output[q]));
    }
    lemma_same_total(294_912, found, squares);
    assert forall|l: int|
        #![trigger pairs[l]]
        0 <= l < pairs.len() implies is_half_finite(pairs[l].0) && is_half_finite(pairs[l].1) by {
        assert(is_half_finite(c_ref[l]) && is_half_finite(output[l]));
    }
    lemma_error_reads(m, pairs, 294_912, error);
}

/// A running sum of a few numbers is off by the precision of each step.
#[verifier::rlimit(50)]
proof fn lemma_few_add_up<T: Number>(m: Reading<T>, zero: T, items: Seq<T>, sum: T, most: int)
    requires
        is_fine(m),
        reads_sums(m),
        (m.known)(zero),
        (m.value)(zero) == 0,
        items.len() <= 4,
        forall|i: int|
            0 <= i < items.len() ==> (m.known)(#[trigger] items[i]) && size((m.value)(items[i]))
                <= most,
        16 * most <= m.top,
        folds_to(sum_step::<T>(), zero, items, sum),
    ensures
        (m.known)(sum),
        m.precision * size((m.value)(sum) - total(items.len(), |i: int| (m.value)(items[i]))) <= 8
            * items.len() * total(items.len(), |i: int| size((m.value)(items[i]))),
        size(total(items.len(), |i: int| (m.value)(items[i]))) <= total(
            items.len(),
            |i: int| size((m.value)(items[i])),
        ) <= items.len() * most,
        size((m.value)(sum)) <= 2 * (items.len() * most),
    decreases items.len(),
{
    let p = m.precision;
    let values = |i: int| (m.value)(items[i]);
    let sizes = |i: int| size((m.value)(items[i]));
    if items.len() == 0 {
        assert(p * 0 == 0);
    } else {
        let n = items.len() - 1;
        let front = items.drop_last();
        let step = sum_step::<T>();
        let mid = choose|mid: T|
            folds_to(step, zero, front, mid) && #[trigger] step(mid, items.last(), sum);
        assert(call_ensures(T::plus, (mid, items[n]), sum));
        assert forall|i: int| 0 <= i < front.len() implies (m.known)(#[trigger] front[i]) && size(
            (m.value)(front[i]),
        ) <= most by {
            assert(front[i] == items[i]);
        }
        lemma_few_add_up(m, zero, front, mid, most);
        lemma_same_total(n as nat, |i: int| (m.value)(front[i]), values);
        lemma_same_total(n as nat, |i: int| size((m.value)(front[i])), sizes);
        let all = total(n as nat, sizes);
        let whole = total(n as nat, values);
        let item = (m.value)(items[n]);
        assert(total(items.len(), values) == whole + item);
        assert(total(items.len(), sizes) == all + size(item));
        assert(n * most <= 3 * most) by (nonlinear_arith)
            requires
                n <= 3,
                most >= 0,
        ;
        assert((n + 1) * most == n * most + most) by (nonlinear_arith);
        let before = (m.value)(mid);
        let after = (m.value)(sum);
        assert(p * 0 == 0);
        assert(2 * n * (p * 0) == 0) by (nonlinear_arith);
        assert(2 * (n + 1) * (p * 0) == 0) by (nonlinear_arith);
        assert(is_near(p, after, before + item, 0));
        lemma_sum_step(p, 0, n, all, whole, before, size(item), item, item, after);
        let off = size(after - (whole + item));
        assert(off <= all + size(item)) by (nonlinear_arith)
            requires
                p * off <= 8 * (n + 1) * (all + size(item)),
                n <= 3,
                p >= 1000,
                all + size(item) >= 0,
        {
            assert(8 * (n + 1) * (all + size(item)) <= 32 * (all + size(item))) by (nonlinear_arith)
                requires
                    n <= 3,
                    all + size(item) >= 0,
            ;
        }
    }
}

/// The mean error of a course follows from the outputs of its runs.
#[verifier::rlimit(50)]
proof fn lemma_course_reports_mean_error<T: Number>(
    m: Reading<T>,
    sessions: Seq<Session<T>>,
    replies: Seq<Reply>,
    c_ref: Seq<u16>,
    mean_time: T,
    mean_error: T,
)
    requires
        reads_errors(m, 294_912),
        is_course(sessions, replies, c_ref),
        sessions[32].leads_to(replies[32], c_ref, Progress::Finished(mean_time, mean_error)),
        forall|q: int| 0 <= q < 294_912 ==> is_half_finite(#[trigger] c_ref[q]),
        forall|run: int, q: int|
            0 <= run < 4 && 0 <= q < 294_912 ==> is_half_finite(
                #[trigger] replies[14 + 6 * run]->Output_0@[q],
            ),
        forall|run: int|
            0 <= run < 4 ==> 8 * #[trigger] squares_of_run(m, replies, c_ref, run) <= m.top
                * m.unit,
    ensures
        exists|errors: Seq<int>| #[trigger]
            are_errors_of_runs(m, replies, c_ref, errors) && is_mean_of_four(
                m,
                (m.value)(mean_error),
                errors,
            ),
{
    let p = m.precision;
    let u = m.unit;
    law_session_reports_means(sessions, replies, c_ref, mean_time, mean_error);
    let zero = sessions[0].total_error;
    let (errors, sum) = choose|errors: Seq<T>, total: T|
        {
            &&& errors.len() == 4
            &&& are_run_errors(replies, c_ref, errors)
            &&& #[trigger] folds_to(sum_step::<T>(), zero, errors, total)
            &&& is_mean_error(total, mean_error)
        };
    let values = Seq::new(4, |run: int| (m.value)(errors[run]));
    assert forall|run: int| 0 <= run < 4 implies (m.known)(errors[run]) && is_mean_of_squares(
        m,
        #[trigger] values[run],
        294_912,
        squares_of_run(m, replies, c_ref, run),
    ) by {
        let output = replies[14 + 6 * run]->Output_0@;
        assert(is_output_error(output, c_ref, errors[run]));
        assert(8 * squares_of_run(m, replies, c_ref, run) <= m.top * m.unit);
        assert forall|q: int| 0 <= q < 294_912 implies is_half_finite(#[trigger] output[q]) by {
            assert(is_half_finite(replies[14 + 6 * run]->Output_0@[q]));
        }
        lemma_output_error_reads(m, output, c_ref, errors[run]);
    }
    let sizes = size(values[0]) + size(values[1]) + size(values[2]) + size(values[3]);
    let whole = values[0] + values[1] + values[2] + values[3];
    if 100 * sizes <= m.top {
        assert(0 * u == 0);
        assert forall|i: int| 0 <= i < 4 implies (m.known)(#[trigger] errors[i]) && size(
            (m.value)(errors[i]),
        ) <= sizes by {
            assert(values[i] == (m.value)(errors[i]));
            assert(is_mean_of_squares(
                m,
                values[i],
                294_912,
                squares_of_run(m, replies, c_ref, i),
            ));
        }
        lemma_few_add_up(m, zero, errors, sum, sizes);
        reveal_with_fuel(total, 5);
        assert(total(4, |i: int| (m.value)(errors[i])) == whole);
        assert(total(4, |i: int| size((m.value)(errors[i]))) == sizes);
        let s = (m.value)(sum);
        let mean = (m.value)(mean_error);
        let runs = choose|runs: T|
            {
                &&& call_ensures(T::decimal, (4i32, 0i32), runs)
                &&& #[trigger] call_ensures(T::over, (sum, runs), mean_error)
            };
        assert((m.value)(runs) == 4 * u);
        assert(size(s) * u <= m.top * (4 * u)) by (nonlinear_arith)
            requires
                size(s) <= m.top,
                u > 0,
        ;
        assert(mean * (4 * u) == (mean * 4) * u) by (nonlinear_arith);
        lemma_near_cancel(p, mean * 4, s, 4, u);
        let o1 = size(mean * 4 - s);
        let o2 = size(s - whole);
        assert(p * size(4 * mean - whole) <= p * o1 + p * o2) by (nonlinear_arith)
            requires
                size(4 * mean - whole) <= o1 + o2,
                p > 0,
        ;
        assert(is_mean_of_four(m, mean, values));
    }
    assert(are_errors_of_runs(m, replies, c_ref, values));
}

/// A session reports the mean of the four errors of its outputs, each of which is
/// the mean of the squares of all differences from the expected products.
pub proof fn law_session_reports_mean_error<T: Number>(
    m: Reading<T>,
    sessions: Seq<Session<T>>,
    replies: Seq<Reply>,
    c_ref: &[u16],
    mean_time: T,
    mean_error: T,
)
    requires
        reads_errors(m, 294_912),
        is_played(sessions, replies, c_ref),
        call_ensures(
            Session::<T>::step,
            (sessions[32], replies[32], c_ref),
            Progress::Finished(mean_time, mean_error),
        ),
        forall|q: int| 0 <= q < 294_912 ==> is_half_finite(#[trigger] c_ref@[q]),
        forall|run: int, q: int|
            0 <= run < 4 && 0 <= q < 294_912 ==> is_half_finite(
                #[trigger] replies[14 + 6 * run]->Output_0@[q],
            ),
        forall|run: int|
            0 <= run < 4 ==> 8 * #[trigger] squares_of_run(m, replies, c_ref@, run) <= m.top
                * m.unit,
    ensures
        exists|errors: Seq<int>| #[trigger]
            are_errors_of_runs(m, replies, c_ref@, errors) && is_mean_of_four(
                m,
                (m.value)(mean_error),
                errors,
            ),
{
    lemma_played_is_course(sessions, replies, c_ref);
    lemma_course_reports_mean_error(m, sessions, replies, c_ref@, mean_time, mean_error);
}

/// Every error is the mean of the squares of all differences between the output of
/// its run and the expected products.
pub open spec fn are_errors_of_runs<T: Number>(
    m: Reading<T>,
    replies: Seq<Reply>,
    c_ref: Seq<u16>,
    errors: Seq<int>,
) -> bool {
    &&& errors.len() == 4
    &&& forall|run: int|
        0 <= run < 4 ==> is_mean_of_squares(
            m,
            #[trigger] errors[run],
            294_912,
            squares_of_run(m, replies, c_ref, run),
        )
}

/// The mean of four errors is off by the precision of each step.
pub open spec fn is_mean_of_four<T>(m: Reading<T>, mean: int, errors: Seq<int>) -> bool {
    let sizes = size(errors[0]) + size(errors[1]) + size(errors[2]) + size(errors[3]);
    100 * sizes <= m.top ==> m.precision * size(
        4 * mean - (errors[0] + errors[1] + errors[2] + errors[3]),
    ) <= 40 * sizes + 4 * m.precision
}

/// The sum of the squares of all differences between the output of a run and the
/// expected products.
pub open spec fn squares_of_run<T: Number>(
    m: Reading<T>,
    replies: Seq<Reply>,
    c_ref: Seq<u16>,
    run: int,
) -> int {
    total(
        294_912,
        |q: int| squared_difference(m, c_ref[q], replies[14 + 6 * run]->Output_0@[q]),
    )
}

/// An output with an element that is not finite leaves the mean error of the session
/// without a value.
pub proof fn law_unknown_output_spoils_mean_error<T: Number>(
    m: Reading<T>,
    sessions: Seq<Session<T>>,
    replies: Seq<Reply>,
    c_ref: &[u16],
    mean_time: T,
    mean_error: T,
    run: int,
    q: int,
)
    requires
        spreads_unknown(m),
        is_played(sessions, replies, c_ref),
        call_ensures(
            Session::<T>::step,
            (sessions[32], replies[32], c_ref),
            Progress::Finished(mean_time, mean_error),
        ),
        0 <= run < 4,
        0 <= q < 294_912,
        !is_half_finite(replies[14 + 6 * run]->Output_0@[q]) || !is_half_finite(c_ref@[q]),
    ensures
        !(m.known)(mean_error),
{
    assert(is_course(sessions, replies, c_ref@)) by {
        lemma_played_is_course(sessions, replies, c_ref);
    }
    law_session_reports_means(sessions, replies, c_ref@, mean_time, mean_error);
    let zero = sessions[0].total_error;
    let (errors, sum) = choose|errors: Seq<T>, total: T|
        {
            &&& errors.len() == 4
            &&& are_run_errors(replies, c_ref@, errors)
            &&& #[trigger] folds_to(sum_step::<T>(), zero, errors, total)
            &&& is_mean_error(total, mean_error)
        };
    let output = replies[14 + 6 * run]->Output_0@;
    assert(is_output_error(output, c_ref@, errors[run]));
    let pairs = compared_pairs(output, c_ref@, 32, 256, 36, 32, 256);
    assert(36 * 32 * 256 == 294_912);
    lemma_at_covers(q, 36, 32, 256);
    assert(pairs[q] == (c_ref@[q], output[q]));
    lemma_pair_spoils_error(m, pairs, 294_912, errors[run], q);
    let step = sum_step::<T>();
    assert forall|a: T, e: T, b: T| #[trigger] step(a, e, b) && (!(m.known)(a) || !(m.known)(
        e,
    )) implies !(m.known)(b) by {
        assert(call_ensures(T::plus, (a, e), b));
    }
    lemma_fold_spoils(m.known, step, |e: T| !(m.known)(e), zero, errors, run, sum);
}

} // verus!
