//! What a frame of holding the button adds to the world, and what it leaves alone.
use vstd::prelude::*;

use crate::interaction::{dumped, InteractionTools, ParticleDump, Tool};
use crate::model::{GpuStatus, Simulation};
use crate::scalar::{zero, Scalar};
use crate::ui::Controls;

verus! {

/// Particles are added only by the tool for it, while its button is held on the world
/// that it was pressed on, and only where they fit the device.
pub proof fn lemma_only_a_held_button_adds(
    before: (InteractionTools, Simulation, Controls, Scalar),
    after: (InteractionTools, Simulation, Controls, Scalar),
    seconds: Scalar,
    status: GpuStatus,
)
    requires
        dumped(before, after, seconds, status),
        after.1.count != before.1.count || after.0.serial != before.0.serial || after.0.pending@.len()
            > before.0.pending@.len(),
        before.0.serial < u64::MAX,
    ensures
        before.0.tool == Tool::Dump,
        before.0.active,
        before.0.epoch == before.1.epoch,
        before.0.cursor is Some,
        after.1.count > before.1.count,
        crate::model::count_error(after.1.count, after.1.types, status) is None,
        after.0.error@.len() == 0,
        after.0.pending@.len() <= 120,
{
    reveal_strlit("");
    lemma_queue_kept(before.0, before.1.epoch, status.dump_ack);
}

/// What is added is one batch under a number of its own. It lies about the cursor, as
/// far as the brush reaches, and takes the places after the particles that there were.
pub proof fn lemma_batch_lies_about_the_cursor(
    before: (InteractionTools, Simulation, Controls, Scalar),
    after: (InteractionTools, Simulation, Controls, Scalar),
    seconds: Scalar,
    status: GpuStatus,
)
    requires
        dumped(before, after, seconds, status),
        after.1.count != before.1.count,
        before.0.serial < u64::MAX,
    ensures
        after.0.pending@.len() > 0,
        ({
            let batch = after.0.pending@.last();
            &&& before.0.cursor == Some(batch.center)
            &&& batch.radius == before.0.radius
            &&& batch.start == before.1.count
            &&& batch.start + batch.count == after.1.count
            &&& batch.serial == before.0.serial + 1
            &&& after.0.serial == batch.serial
        }),
        after.2.count == after.1.count,
{
}

proof fn lemma_later_kept(pending: Seq<ParticleDump>, last: u64, batch: ParticleDump)
    ensures
        crate::interaction::unacknowledged(pending, last).len() <= pending.len(),
        crate::interaction::unacknowledged(pending, last).contains(batch) <==> pending.contains(batch) && batch.serial
            > last,
{
    let later = |batch: ParticleDump| batch.serial > last;
    let kept = crate::interaction::unacknowledged(pending, last);
    assert(kept == pending.filter(later));
    pending.lemma_filter_len(later);
    if pending.contains(batch) && batch.serial > last {
        let i = choose|i: int| 0 <= i < pending.len() && pending[i] == batch;
        pending.lemma_filter_contains(later, i);
    }
    if kept.contains(batch) {
        let i = choose|i: int| 0 <= i < kept.len() && kept[i] == batch;
        pending.lemma_filter_contains_rev(later, batch);
        pending.lemma_filter_pred(later, i);
    }
}

/// The batches that stay are those of this world that were not taken over.
proof fn lemma_queue_kept(tools: InteractionTools, epoch: u64, ack: (u64, u64))
    ensures
        ({
            let queue = crate::interaction::outstanding(tools, epoch, ack);
            &&& queue.len() <= tools.pending@.len()
            &&& forall|batch: ParticleDump| #[trigger]
                queue.contains(batch) <==> tools.pending@.contains(batch) && tools.epoch == epoch && (ack.0 == epoch
                    ==> batch.serial > ack.1)
        }),
{
    let own = if tools.epoch == epoch {
        tools.pending@
    } else {
        Seq::empty()
    };
    let queue = crate::interaction::outstanding(tools, epoch, ack);
    lemma_later_kept(own, ack.1, arbitrary());
    assert forall|batch: ParticleDump| #[trigger]
        queue.contains(batch) <==> tools.pending@.contains(batch) && tools.epoch == epoch && (ack.0 == epoch
            ==> batch.serial > ack.1) by {
        lemma_later_kept(own, ack.1, batch);
    }
}

/// A batch stays on its way until it was taken over or its world is gone.
pub proof fn lemma_batches_stay_until_taken_over(
    before: (InteractionTools, Simulation, Controls, Scalar),
    after: (InteractionTools, Simulation, Controls, Scalar),
    seconds: Scalar,
    status: GpuStatus,
    batch: ParticleDump,
)
    requires
        dumped(before, after, seconds, status),
        before.0.serial < u64::MAX,
        batch.serial <= before.0.serial,
    ensures
        after.0.pending@.contains(batch) <==> before.0.pending@.contains(batch) && before.0.epoch == before.1.epoch
            && !(status.dump_ack.0 == before.1.epoch && batch.serial <= status.dump_ack.1),
        after.0.pending@.len() <= before.0.pending@.len() + 1,
{
    lemma_queue_kept(before.0, before.1.epoch, status.dump_ack);
    let queue = crate::interaction::outstanding(before.0, before.1.epoch, status.dump_ack);
    let pending = after.0.pending@;
    if pending.contains(batch) {
        let i = choose|i: int| 0 <= i < pending.len() && pending[i] == batch;
        if pending != queue {
            assert(pending.last().serial == before.0.serial + 1);
            assert(pending.drop_last() =~= queue);
            assert(queue[i] == batch);
        }
        assert(queue.contains(batch));
    }
    if queue.contains(batch) {
        let i = choose|i: int| 0 <= i < queue.len() && queue[i] == batch;
        assert(pending[i] == batch);
    }
}

/// Letting go, changing the tool and making a new world forget the part of a particle
/// due; a cursor off the world keeps it. None of them adds anything.
pub proof fn lemma_part_of_a_particle(
    before: (InteractionTools, Simulation, Controls, Scalar),
    after: (InteractionTools, Simulation, Controls, Scalar),
    seconds: Scalar,
    status: GpuStatus,
)
    requires
        dumped(before, after, seconds, status),
        ({
            let held = before.0.tool == Tool::Dump && before.0.active && before.0.epoch == before.1.epoch;
            !held || before.0.cursor is None
        }),
    ensures
        ({
            let held = before.0.tool == Tool::Dump && before.0.active && before.0.epoch == before.1.epoch;
            after.3 == if held { before.3 } else { zero() }
        }),
        after.1 == before.1,
        after.2 == before.2,
        after.0.serial == before.0.serial,
        before.0.epoch == before.1.epoch ==> after.0.error@ == before.0.error@,
        before.0.epoch != before.1.epoch ==> after.0.error@.len() == 0,
{
    reveal_strlit("");
}

/// The tools and the world stay as they are but for the particles added; the button
/// pressed on an earlier world counts no more.
pub proof fn lemma_pouring_leaves_the_rest(
    before: (InteractionTools, Simulation, Controls, Scalar),
    after: (InteractionTools, Simulation, Controls, Scalar),
    seconds: Scalar,
    status: GpuStatus,
)
    requires
        dumped(before, after, seconds, status),
    ensures
        after.0.tool == before.0.tool,
        after.0.radius == before.0.radius,
        after.0.strength == before.0.strength,
        after.0.rate == before.0.rate,
        after.0.cursor == before.0.cursor,
        after.0.epoch == before.1.epoch,
        after.0.active <==> before.0.active && before.0.epoch == before.1.epoch,
        after.1 == (Simulation { count: after.1.count, ..before.1 }),
        after.2 == (Controls { count: after.2.count, ..before.2 }),
        after.2.count != before.2.count ==> after.2.count == after.1.count,
{
}

/// With the button held, as many particles are added as are due whole. Where there are
/// more than can be counted or held, none is, and the tools say why; the part of one due
/// stays either way.
pub proof fn lemma_whole_particles_added(
    before: (InteractionTools, Simulation, Controls, Scalar),
    after: (InteractionTools, Simulation, Controls, Scalar),
    seconds: Scalar,
    status: GpuStatus,
    n: u32,
)
    requires
        dumped(before, after, seconds, status),
        before.0.tool == Tool::Dump,
        before.0.active,
        before.0.epoch == before.1.epoch,
        before.0.cursor is Some,
        before.0.pending@.len() < 120,
        ({
            let due = InteractionTools::gathered(before.3, before.0.rate, seconds);
            &&& due.finite()
            &&& n * crate::scalar::one_units() <= due.units() < (n + 1) * crate::scalar::one_units()
            &&& n < 0x100_0000
        }),
    ensures
        ({
            let due = InteractionTools::gathered(before.3, before.0.rate, seconds);
            after.3.units() == due.units() - n * crate::scalar::one_units()
        }),
        ({
            let total = before.1.count + n;
            if total > u32::MAX {
                &&& after.1.count == before.1.count
                &&& after.0.error@ == "Particle count limit reached."@
            } else if n > 0 && crate::model::count_error(total as u32, before.1.types, status) is Some {
                &&& after.1.count == before.1.count
                &&& crate::model::count_error(total as u32, before.1.types, status) == Some(after.0.error@)
            } else {
                after.1.count == total
            }
        }),
{
    let unit = crate::scalar::one_units();
    let due = InteractionTools::gathered(before.3, before.0.rate, seconds);
    let most = crate::scalar::scalar(0x4b80_0000);  // 16777216.0
    crate::rounding::lemma_p2_pos(149);
    crate::rounding::lemma_grid_code(0, 0);
    lemma_queue_kept(before.0, before.1.epoch, status.dump_ack);
    crate::nearly::lemma_power(24);
    crate::rounding::lemma_p2_values();
    crate::rounding::lemma_p2_adds(24, 149);
    assert(most == crate::nearly::power(24) && most.units() == 0x100_0000 * unit);
    assert(0 <= n * unit && (n + 1) * unit <= 0x100_0000 * unit) by (nonlinear_arith)
        requires
            0 <= n < 0x100_0000,
            unit > 0,
    ;
    crate::order::lemma_order_of_values(zero(), due);
    crate::order::lemma_order_of_values(due, most);
    crate::order::lemma_fraction_exact(due);
    let found = due.floor().to_u32();
    assert((found + 1) * unit == found * unit + unit) by (nonlinear_arith);
    assert(found == n) by (nonlinear_arith)
        requires
            n * unit <= due.units() < (n + 1) * unit,
            found * unit <= due.units() < (found + 1) * unit,
            unit > 0,
    ;
}

/// With too many batches on their way nothing is added and what is due waits.
pub proof fn lemma_pouring_waits(
    before: (InteractionTools, Simulation, Controls, Scalar),
    after: (InteractionTools, Simulation, Controls, Scalar),
    seconds: Scalar,
    status: GpuStatus,
)
    requires
        dumped(before, after, seconds, status),
        before.0.tool == Tool::Dump,
        before.0.active,
        before.0.epoch == before.1.epoch,
        before.0.cursor is Some,
        before.0.pending@.len() >= 120,
        status.dump_ack.0 != before.1.epoch,
    ensures
        after.0.error@ == "Waiting for the GPU to catch up."@,
        after.3 == before.3,
        after.1 == before.1,
        after.2 == before.2,
        after.0.pending@ == before.0.pending@,
{
}

} // verus!
