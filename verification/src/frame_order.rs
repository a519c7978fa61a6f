//! Why the order in which commands arrive does not matter: the buffer of
//! commands puts them in the order of their frames.

use vstd::prelude::*;
use vstd::relations::{sorted_by, total_ordering};
use vstd::seq_lib::{lemma_sorted_unique, to_multiset_insert};
use crate::message::{ClientCommand, CommandFrame};
use crate::queue::lemma_split_is_filter;
use crate::transport::{by_frame, due, filed, later, StampedCommand};

verus! {

/// The buffer after the commands `arrivals` were filed, one after another.
pub open spec fn filed_all(buffered: Seq<StampedCommand>, arrivals: Seq<StampedCommand>) -> Seq<
    StampedCommand,
>
    decreases arrivals.len(),
{
    if arrivals.len() == 0 {
        buffered
    } else {
        filed(filed_all(buffered, arrivals.drop_last()), arrivals.last())
    }
}

/// No two commands are due at the same frame.
pub open spec fn distinct_frames(commands: Seq<StampedCommand>) -> bool {
    forall|i: int, j: int|
        0 <= i < j < commands.len() ==> (#[trigger] commands[i]).command_frame != (
        #[trigger] commands[j]).command_frame
}

/// Each command is due before the next.
pub open spec fn ascending() -> spec_fn(StampedCommand, StampedCommand) -> bool {
    |a: StampedCommand, b: StampedCommand| a.command_frame < b.command_frame
}

/// The place of a command in an order of all stamped commands: by frame,
/// and within a frame by the direction of the move.
pub open spec fn rank(command: ClientCommand) -> int {
    match command {
        ClientCommand::MoveUp => 0,
        ClientCommand::MoveRight => 1,
        ClientCommand::MoveDown => 2,
        ClientCommand::MoveLeft => 3,
    }
}

/// An order of all stamped commands: by frame, and within a frame by the
/// direction of the move.
pub open spec fn by_frame_and_command() -> spec_fn(StampedCommand, StampedCommand) -> bool {
    |a: StampedCommand, b: StampedCommand|
        a.command_frame < b.command_frame || (a.command_frame == b.command_frame && rank(a.command)
            <= rank(b.command))
}

/// Where the commands that are due at `frame` end in an ordered buffer.
proof fn split_point(buffered: Seq<StampedCommand>, frame: CommandFrame) -> (k: int)
    requires
        sorted_by(buffered, by_frame()),
    ensures
        0 <= k <= buffered.len(),
        forall|i: int| 0 <= i < k ==> (#[trigger] buffered[i]).command_frame <= frame,
        forall|i: int| k <= i < buffered.len() ==> (#[trigger] buffered[i]).command_frame > frame,
        buffered.filter(due(frame)).len() == k,
    decreases buffered.len(),
{
    let k = if buffered.len() == 0 {
        0
    } else if buffered.last().command_frame <= frame {
        assert forall|i: int| 0 <= i < buffered.len() implies (#[trigger] buffered[i]).command_frame
            <= frame by {
            if i < buffered.len() - 1 {
                assert(by_frame()(buffered[i], buffered[buffered.len() - 1]));
            }
        }
        buffered.len() as int
    } else {
        let front = buffered.drop_last();
        assert forall|i: int, j: int| 0 <= i < j < front.len() implies #[trigger] by_frame()(
            front[i],
            front[j],
        ) by {
            assert(by_frame()(buffered[i], buffered[j]));
        }
        let k = split_point(front, frame);
        assert forall|i: int| 0 <= i < k implies (#[trigger] buffered[i]).command_frame <= frame by {
            assert(front[i] == buffered[i]);
        }
        assert forall|i: int| k <= i < buffered.len() implies (#[trigger] buffered[i]).command_frame
            > frame by {
            if i < front.len() {
                assert(front[i] == buffered[i]);
            }
        }
        k
    };
    lemma_split_is_filter(buffered, due(frame), later(frame), k);
    k
}

/// Filing a command into an ordered buffer leaves the buffer ordered, and
/// adds the command to what the buffer holds.
pub proof fn lemma_filed_keeps_order(buffered: Seq<StampedCommand>, command: StampedCommand)
    requires
        sorted_by(buffered, by_frame()),
    ensures
        sorted_by(filed(buffered, command), by_frame()),
        filed(buffered, command).to_multiset() == buffered.to_multiset().insert(command),
{
    let k = split_point(buffered, command.command_frame);
    let after = filed(buffered, command);
    to_multiset_insert(buffered, k, command);
    assert forall|i: int, j: int| 0 <= i < j < after.len() implies #[trigger] by_frame()(
        after[i],
        after[j],
    ) by {
        let a = if i < k { i } else { i - 1 };
        let b = if j < k { j } else { j - 1 };
        if i != k && j != k {
            assert(by_frame()(buffered[a], buffered[b]));
        } else if i == k {
            assert(buffered[b].command_frame > command.command_frame);
        } else {
            assert(buffered[a].command_frame <= command.command_frame);
        }
    }
}

/// However the commands arrive, the buffer holds them ordered by frame,
/// each as often as it arrived.
pub proof fn lemma_filed_all_is_ordered(arrivals: Seq<StampedCommand>)
    ensures
        sorted_by(filed_all(Seq::empty(), arrivals), by_frame()),
        filed_all(Seq::empty(), arrivals).to_multiset() == arrivals.to_multiset(),
    decreases arrivals.len(),
{
    broadcast use vstd::seq_lib::to_multiset_build;

    if arrivals.len() == 0 {
        assert(arrivals =~= Seq::<StampedCommand>::empty());
    } else {
        lemma_filed_all_is_ordered(arrivals.drop_last());
        lemma_filed_keeps_order(filed_all(Seq::empty(), arrivals.drop_last()), arrivals.last());
        assert(arrivals.drop_last().push(arrivals.last()) =~= arrivals);
    }
}

/// Commands that arrive in the order of their frames are buffered in the
/// order of their arrival.
pub proof fn lemma_filed_all_of_ordered(arrivals: Seq<StampedCommand>)
    requires
        sorted_by(arrivals, by_frame()),
    ensures
        filed_all(Seq::empty(), arrivals) == arrivals,
    decreases arrivals.len(),
{
    if arrivals.len() == 0 {
        assert(arrivals =~= Seq::<StampedCommand>::empty());
    } else {
        let front = arrivals.drop_last();
        let last = arrivals.last();
        assert forall|i: int, j: int| 0 <= i < j < front.len() implies #[trigger] by_frame()(
            front[i],
            front[j],
        ) by {
            assert(by_frame()(arrivals[i], arrivals[j]));
        }
        lemma_filed_all_of_ordered(front);
        let k = split_point(front, last.command_frame);
        if k < front.len() {
            assert(by_frame()(arrivals[k], arrivals[arrivals.len() - 1]));
            assert(front[k] == arrivals[k]);
        }
        assert(front.insert(k, last) =~= arrivals);
    }
}

/// Commands of distinct frames are buffered with each due before the next,
/// and each buffered command is one that arrived.
proof fn lemma_filed_all_ascends(arrivals: Seq<StampedCommand>)
    requires
        distinct_frames(arrivals),
    ensures
        sorted_by(filed_all(Seq::empty(), arrivals), ascending()),
        forall|i: int|
            0 <= i < filed_all(Seq::empty(), arrivals).len() ==> arrivals.contains(
                #[trigger] filed_all(Seq::empty(), arrivals)[i],
            ),
    decreases arrivals.len(),
{
    if arrivals.len() > 0 {
        let front = arrivals.drop_last();
        let last = arrivals.last();
        assert forall|i: int, j: int| 0 <= i < j < front.len() implies (
        #[trigger] front[i]).command_frame != (#[trigger] front[j]).command_frame by {
            assert(arrivals[i].command_frame != arrivals[j].command_frame);
        }
        lemma_filed_all_ascends(front);
        lemma_filed_all_is_ordered(front);
        let buffered = filed_all(Seq::empty(), front);
        let k = split_point(buffered, last.command_frame);
        let after = filed(buffered, last);
        assert(after == filed_all(Seq::empty(), arrivals));
        assert forall|i: int| 0 <= i < buffered.len() implies (#[trigger] buffered[i]).command_frame
            != last.command_frame by {
            assert(front.contains(buffered[i]));
            let at = choose|at: int| 0 <= at < front.len() && front[at] == buffered[i];
            assert(arrivals[at].command_frame != arrivals[arrivals.len() - 1].command_frame);
        }
        assert forall|i: int, j: int| 0 <= i < j < after.len() implies #[trigger] ascending()(
            after[i],
            after[j],
        ) by {
            let a = if i < k { i } else { i - 1 };
            let b = if j < k { j } else { j - 1 };
            if i != k && j != k {
                assert(ascending()(buffered[a], buffered[b]));
            } else if i == k {
                assert(buffered[b].command_frame > last.command_frame);
            } else {
                assert(buffered[a].command_frame <= last.command_frame);
                assert(buffered[a].command_frame != last.command_frame);
            }
        }
        assert forall|i: int| 0 <= i < after.len() implies arrivals.contains(#[trigger] after[i]) by {
            if i == k {
                assert(arrivals[arrivals.len() - 1] == after[i]);
            } else {
                let a = if i < k { i } else { i - 1 };
                assert(front.contains(buffered[a]));
                let at = choose|at: int| 0 <= at < front.len() && front[at] == buffered[a];
                assert(arrivals[at] == after[i]);
            }
        }
    }
}

/// The order in which commands arrive is immaterial: two runs of arrivals
/// that hold the same commands, each of another frame, leave the same
/// buffer behind, and so lead to the same state.
pub proof fn lemma_arrival_order_is_immaterial(first: Seq<StampedCommand>, second: Seq<StampedCommand>)
    requires
        first.to_multiset() == second.to_multiset(),
        distinct_frames(first),
        distinct_frames(second),
    ensures
        filed_all(Seq::empty(), first) == filed_all(Seq::empty(), second),
{
    let a = filed_all(Seq::empty(), first);
    let b = filed_all(Seq::empty(), second);
    lemma_filed_all_is_ordered(first);
    lemma_filed_all_is_ordered(second);
    lemma_filed_all_ascends(first);
    lemma_filed_all_ascends(second);
    let order = by_frame_and_command();
    assert(total_ordering(order)) by {
        assert forall|x: StampedCommand, y: StampedCommand| #[trigger]
            order(x, y) && #[trigger] order(y, x) implies x == y by {
            assert(rank(x.command) == rank(y.command));
        }
        assert forall|x: StampedCommand| #[trigger] order(x, x) by {}
        assert forall|x: StampedCommand, y: StampedCommand, z: StampedCommand| #[trigger]
            order(x, y) && #[trigger] order(y, z) implies order(x, z) by {}
        assert forall|x: StampedCommand, y: StampedCommand| #[trigger]
            order(x, y) || #[trigger] order(y, x) by {}
    }
    assert forall|i: int, j: int| 0 <= i < j < a.len() implies #[trigger] order(a[i], a[j]) by {
        assert(ascending()(a[i], a[j]));
    }
    assert forall|i: int, j: int| 0 <= i < j < b.len() implies #[trigger] order(b[i], b[j]) by {
        assert(ascending()(b[i], b[j]));
    }
    lemma_sorted_unique(a, b, order);
}

} // verus!
