//! What every reading does to the instructions that are left.
use crate::instruction::{Instruction, PopReason};
use crate::list;
use crate::object;
use crate::partial::Call;
use crate::runner::RunnerView;
use crate::scalar::Outcome;
use crate::value;
use vstd::prelude::*;

verus! {

/// Whether `after` is `before` with instructions added on top, none of which ends the value as a
/// whole.
pub open spec fn only_adds(before: Seq<Instruction>, after: Seq<Instruction>) -> bool {
    &&& before.len() <= after.len()
    &&& forall|i: int| 0 <= i < before.len() ==> #[trigger] after[i] == before[i]
    &&& forall|i: int|
        before.len() <= i < after.len() ==> #[trigger] after[i] != Instruction::Pop(
            PopReason::TopLevel,
        )
}

/// Unwrapping a value only adds instructions.
pub proof fn unwrapping_only_adds(
    stack: Seq<Instruction>,
    log: Seq<Call>,
    pointer_begun: bool,
    record: Seq<Call>,
)
    ensures
        only_adds(stack, value::resolved(stack, log, pointer_begun, record).stack),
    decreases record.len() - log.len(),
{
    match value::next_wrap(log, pointer_begun) {
        None => {},
        Some(wrap) => {
            let attempt = value::entered(log, wrap, record);
            if attempt.err is None && log.len() < record.len() {
                unwrapping_only_adds(
                    stack.push(Instruction::Pop(wrap.reason())),
                    attempt.log,
                    pointer_begun || wrap is Pointer,
                    record,
                );
            }
        },
    }
}

/// Reading a value only adds instructions.
pub proof fn value_only_adds(
    runner: RunnerView,
    log: Seq<Call>,
    outcome: Outcome<'_>,
    record: Seq<Call>,
)
    ensures
        only_adds(runner.stack, value::value_turn(runner, log, outcome, record).runner.stack),
{
    unwrapping_only_adds(runner.stack, log, false, record);
}

/// Reading a key or the end of an object only adds instructions.
pub proof fn object_only_adds(
    runner: RunnerView,
    log: Seq<Call>,
    outcome: Outcome<'_>,
    record: Seq<Call>,
)
    ensures
        only_adds(runner.stack, object::object_turn(runner, log, outcome, record).runner.stack),
{
}

/// Reading an item or the end of a list only adds instructions.
pub proof fn list_only_adds(
    runner: RunnerView,
    log: Seq<Call>,
    outcome: Outcome<'_>,
    record: Seq<Call>,
)
    ensures
        only_adds(runner.stack, list::list_turn(runner, log, outcome, record).runner.stack),
{
    if outcome !is ListEnded {
        let pushed = runner.push(Instruction::ListItemOrListClose).push(
            Instruction::Pop(PopReason::ListVal),
        );
        let item = list::item_begun(pushed, log, record);
        assert(item.runner.stack == pushed.stack);
        let set = list::empty_tuple_set(item.attempt, outcome, record);
        value_only_adds(item.runner, set.log, outcome, record);
    }
}

} // verus!
