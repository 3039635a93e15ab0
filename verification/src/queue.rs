//! The work-stealing queues that hold free regions.
//!
//! The queues come from `crossbeam_deque`. A queued region is the pair of its address and its
//! length in bytes. Every operation takes its queues by exclusive reference, and no stealer of a
//! worker queue outlives the call that made it, so that what a queue holds is known exactly.
use crossbeam_deque::{Injector, Worker};
use vstd::prelude::*;

verus! {

/// Declares `crossbeam_deque::Injector`, the shared first-in first-out queue.
#[verifier::external_type_specification]
#[verifier::external_body]
#[verifier::reject_recursive_types(T)]
pub struct ExInjector<T>(crossbeam_deque::Injector<T>);

/// Declares `crossbeam_deque::Worker`, the queue of one thread.
#[verifier::external_type_specification]
#[verifier::external_body]
#[verifier::reject_recursive_types(T)]
pub struct ExWorker<T>(crossbeam_deque::Worker<T>);

/// What an injector holds, the item that leaves next first.
pub uninterp spec fn injector_items(queue: Injector<(usize, usize)>) -> Seq<(usize, usize)>;

/// What a worker queue holds, in the order in which the items were pushed.
pub uninterp spec fn worker_items(queue: Worker<(usize, usize)>) -> Seq<(usize, usize)>;

/// Whether a worker queue was made to pop the item that was pushed last.
pub uninterp spec fn worker_is_lifo(queue: Worker<(usize, usize)>) -> bool;

/// Outcome of an attempt to take an item from a queue.
pub enum Steal<T> {
    /// The queue was empty.
    Empty,
    /// At least one item was taken.
    Success(T),
    /// The attempt has to be repeated.
    Retry,
}

/// How often a queue may ask in a row for another attempt before its caller is told so.
pub const RETRY_LIMIT: u64 = u64::MAX;

/// What the sources of free regions answered, in the order in which they are asked. A source is
/// asked only while none before it gave a region.
pub struct Answers<T> {
    /// The shared regions.
    pub global: Steal<T>,
    /// The shared regions without contents.
    pub clean: Option<Steal<T>>,
    /// The caches of the threads.
    pub caches: Option<Steal<T>>,
}

impl<T> Answers<T> {
    /// A source asks for another attempt.
    pub open spec fn any_retry(self) -> bool {
        ||| self.global is Retry
        ||| self.clean matches Some(answer) && answer is Retry
        ||| self.caches matches Some(answer) && answer is Retry
    }

    /// The answer that counts: the region of the first source that gave one, the shared regions
    /// before those without contents, and those before the caches. Where none gave one, the attempt
    /// is to be repeated if a source asks for that.
    pub open spec fn first(self) -> Steal<T> {
        if self.global is Success {
            self.global
        } else if self.clean matches Some(answer) && answer is Success {
            self.clean->0
        } else if self.caches matches Some(answer) && answer is Success {
            self.caches->0
        } else if self.any_retry() {
            Steal::Retry
        } else {
            Steal::Empty
        }
    }

    /// The answer that counts.
    pub fn settle(self) -> (outcome: Steal<T>)
        ensures
            outcome == self.first(),
    {
        let mut retry: bool = false;
        match self.global {
            Steal::Success(item) => {
                return Steal::Success(item);
            },
            Steal::Retry => {
                retry = true;
            },
            Steal::Empty => {},
        }
        match self.clean {
            Some(Steal::Success(item)) => {
                return Steal::Success(item);
            },
            Some(Steal::Retry) => {
                retry = true;
            },
            Some(Steal::Empty) | None => {},
        }
        match self.caches {
            Some(Steal::Success(item)) => {
                return Steal::Success(item);
            },
            Some(Steal::Retry) => {
                retry = true;
            },
            Some(Steal::Empty) | None => {},
        }
        if retry {
            Steal::Retry
        } else {
            Steal::Empty
        }
    }
}

/// `crossbeam_deque::Injector::new`: an empty queue.
#[verifier::external_body]
pub(crate) fn injector_new() -> (queue: Injector<(usize, usize)>)
    ensures
        injector_items(queue) == Seq::<(usize, usize)>::empty(),
{
    Injector::new()
}

/// `crossbeam_deque::Injector::push`: the item goes to the end of the queue.
#[verifier::external_body]
pub(crate) fn injector_push(queue: &mut Injector<(usize, usize)>, item: (usize, usize))
    ensures
        injector_items(*final(queue)) == injector_items(*old(queue)).push(item),
{
    queue.push(item)
}

/// `crossbeam_deque::Injector::len`: the number of items in the queue.
#[verifier::external_body]
pub(crate) fn injector_len(queue: &Injector<(usize, usize)>) -> (len: usize)
    ensures
        len == injector_items(*queue).len(),
{
    queue.len()
}

/// The order in which a batch arrives in a worker queue: a last-in first-out queue takes it
/// reversed, so that the item that leaves next is the first of the batch either way.
pub open spec fn arrival(lifo: bool, batch: Seq<(usize, usize)>) -> Seq<(usize, usize)> {
    if lifo {
        batch.reverse()
    } else {
        batch
    }
}

/// The first `taken` items left `source`; those from position `skip` on arrived in `dest`.
pub open spec fn batch_moved(
    source: Seq<(usize, usize)>,
    source_after: Seq<(usize, usize)>,
    dest: Seq<(usize, usize)>,
    dest_after: Seq<(usize, usize)>,
    lifo: bool,
    skip: nat,
    taken: nat,
) -> bool {
    &&& 1 <= taken <= source.len()
    &&& source_after == source.subrange(taken as int, source.len() as int)
    &&& dest_after == dest + arrival(lifo, source.subrange(skip as int, taken as int))
}

/// `crossbeam_deque::Injector::steal_batch_with_limit`: moves between one and `limit` items from
/// the front of the queue to the worker queue. Which number it is, is left open. It reports that
/// the queue is empty exactly when it is; it may ask for another attempt, and then nothing moved.
#[verifier::external_body]
pub(crate) fn injector_steal_batch(
    queue: &mut Injector<(usize, usize)>,
    dest: &mut Worker<(usize, usize)>,
    limit: usize,
) -> (outcome: Steal<()>)
    requires
        limit > 0,
    ensures
        worker_is_lifo(*final(dest)) == worker_is_lifo(*old(dest)),
        outcome is Empty <==> injector_items(*old(queue)).len() == 0,
        !(outcome is Success) ==> injector_items(*final(queue)) == injector_items(*old(queue)) && worker_items(
            *final(dest),
        ) == worker_items(*old(dest)),
        outcome is Success ==> exists|taken: nat|
            taken <= limit && #[trigger] batch_moved(
                injector_items(*old(queue)),
                injector_items(*final(queue)),
                worker_items(*old(dest)),
                worker_items(*final(dest)),
                worker_is_lifo(*old(dest)),
                0,
                taken,
            ),
{
    match queue.steal_batch_with_limit(dest, limit) {
        crossbeam_deque::Steal::Empty => Steal::Empty,
        crossbeam_deque::Steal::Success(done) => Steal::Success(done),
        crossbeam_deque::Steal::Retry => Steal::Retry,
    }
}

/// `crossbeam_deque::Injector::steal_batch_with_limit_and_pop`: takes between one and `limit`
/// items from the front of the queue, returns the first of them and moves the others to the
/// worker queue. Which number it is, is left open. It reports that the queue is empty exactly
/// when it is; it may ask for another attempt, and then nothing moved.
#[verifier::external_body]
pub(crate) fn injector_steal_batch_and_pop(
    queue: &mut Injector<(usize, usize)>,
    dest: &mut Worker<(usize, usize)>,
    limit: usize,
) -> (outcome: Steal<(usize, usize)>)
    requires
        limit > 0,
    ensures
        worker_is_lifo(*final(dest)) == worker_is_lifo(*old(dest)),
        outcome is Empty <==> injector_items(*old(queue)).len() == 0,
        !(outcome is Success) ==> injector_items(*final(queue)) == injector_items(*old(queue)) && worker_items(
            *final(dest),
        ) == worker_items(*old(dest)),
        outcome matches Steal::Success(item) ==> item == injector_items(*old(queue))[0] && exists|taken: nat|
            taken <= limit && #[trigger] batch_moved(
                injector_items(*old(queue)),
                injector_items(*final(queue)),
                worker_items(*old(dest)),
                worker_items(*final(dest)),
                worker_is_lifo(*old(dest)),
                1,
                taken,
            ),
{
    match queue.steal_batch_with_limit_and_pop(dest, limit) {
        crossbeam_deque::Steal::Empty => Steal::Empty,
        crossbeam_deque::Steal::Success(item) => Steal::Success(item),
        crossbeam_deque::Steal::Retry => Steal::Retry,
    }
}

/// `answer` is what a queue with the items `source` answers when it is asked for a batch of up to `limit`
/// items, of which the first is returned and the others arrive in a worker queue with the items `dest`.
pub closed spec fn batch_answer(
    source: Seq<(usize, usize)>,
    dest: Seq<(usize, usize)>,
    limit: nat,
    answer: Steal<(usize, usize)>,
) -> bool {
    exists|queue: &mut Injector<(usize, usize)>, worker: &mut Worker<(usize, usize)>, most: usize|
        {
            &&& #[trigger] call_ensures(injector_steal_batch_and_pop, (queue, worker, most), answer)
            &&& most == limit
            &&& injector_items(*queue) == source
            &&& worker_items(*worker) == dest
        }
}

/// A queue has no region for a batch, or asks for another attempt.
pub open spec fn passed_over(source: Seq<(usize, usize)>, dest: Seq<(usize, usize)>, limit: nat) -> bool {
    source.len() == 0 || batch_answer(source, dest, limit, Steal::Retry)
}

/// A queue with the items `source` asks for another attempt when up to `limit` of them are to leave.
pub closed spec fn move_asks_again(source: Seq<(usize, usize)>, limit: nat) -> bool {
    exists|queue: &mut Injector<(usize, usize)>, worker: &mut Worker<(usize, usize)>, most: usize|
        {
            &&& #[trigger] call_ensures(injector_steal_batch, (queue, worker, most), Steal::Retry)
            &&& most == limit
            &&& injector_items(*queue) == source
        }
}

/// Ask a queue for a batch: takes up to `limit` items from its front, returns the first of them and moves the
/// others to the worker queue.
pub(crate) fn ask_for_batch(
    queue: &mut Injector<(usize, usize)>,
    dest: &mut Worker<(usize, usize)>,
    limit: usize,
) -> (outcome: Steal<(usize, usize)>)
    requires
        limit > 0,
    ensures
        worker_is_lifo(*final(dest)) == worker_is_lifo(*old(dest)),
        outcome is Empty <==> injector_items(*old(queue)).len() == 0,
        !(outcome is Success) ==> injector_items(*final(queue)) == injector_items(*old(queue)) && worker_items(
            *final(dest),
        ) == worker_items(*old(dest)),
        outcome matches Steal::Success(item) ==> item == injector_items(*old(queue))[0] && exists|taken: nat|
            taken <= limit && #[trigger] batch_moved(
                injector_items(*old(queue)),
                injector_items(*final(queue)),
                worker_items(*old(dest)),
                worker_items(*final(dest)),
                worker_is_lifo(*old(dest)),
                1,
                taken,
            ),
        batch_answer(
            injector_items(*old(queue)),
            worker_items(*old(dest)),
            limit as nat,
            outcome,
        ),
{
    injector_steal_batch_and_pop(queue, dest, limit)
}

/// Move up to `limit` items from the front of a queue to a worker queue.
pub(crate) fn move_batch(
    queue: &mut Injector<(usize, usize)>,
    dest: &mut Worker<(usize, usize)>,
    limit: usize,
) -> (outcome: Steal<()>)
    requires
        limit > 0,
    ensures
        worker_is_lifo(*final(dest)) == worker_is_lifo(*old(dest)),
        outcome is Empty <==> injector_items(*old(queue)).len() == 0,
        !(outcome is Success) ==> injector_items(*final(queue)) == injector_items(*old(queue)) && worker_items(
            *final(dest),
        ) == worker_items(*old(dest)),
        outcome is Success ==> exists|taken: nat|
            taken <= limit && #[trigger] batch_moved(
                injector_items(*old(queue)),
                injector_items(*final(queue)),
                worker_items(*old(dest)),
                worker_items(*final(dest)),
                worker_is_lifo(*old(dest)),
                0,
                taken,
            ),
        outcome is Retry ==> move_asks_again(injector_items(*old(queue)), limit as nat),
{
    injector_steal_batch(queue, dest, limit)
}

/// `crossbeam_deque::Worker::new_lifo`: an empty queue that pops what was pushed last.
#[verifier::external_body]
pub(crate) fn worker_new_lifo() -> (queue: Worker<(usize, usize)>)
    ensures
        worker_items(queue) == Seq::<(usize, usize)>::empty(),
        worker_is_lifo(queue),
{
    Worker::new_lifo()
}

/// `crossbeam_deque::Worker::new_fifo`: an empty queue that pops what was pushed first.
#[verifier::external_body]
pub(crate) fn worker_new_fifo() -> (queue: Worker<(usize, usize)>)
    ensures
        worker_items(queue) == Seq::<(usize, usize)>::empty(),
        !worker_is_lifo(queue),
{
    Worker::new_fifo()
}

/// `crossbeam_deque::Worker::len`: the number of items in the queue.
#[verifier::external_body]
pub(crate) fn worker_len(queue: &Worker<(usize, usize)>) -> (len: usize)
    ensures
        len == worker_items(*queue).len(),
{
    queue.len()
}

/// `crossbeam_deque::Worker::push`: the item goes to the end of the queue.
#[verifier::external_body]
pub(crate) fn worker_push(queue: &mut Worker<(usize, usize)>, item: (usize, usize))
    ensures
        worker_items(*final(queue)) == worker_items(*old(queue)).push(item),
        worker_is_lifo(*final(queue)) == worker_is_lifo(*old(queue)),
{
    queue.push(item)
}

/// `crossbeam_deque::Worker::pop`: takes an item, if there is one: the one that was pushed last
/// where the queue was made so, else the one that was pushed first.
#[verifier::external_body]
pub(crate) fn worker_pop(queue: &mut Worker<(usize, usize)>) -> (item: Option<(usize, usize)>)
    ensures
        worker_is_lifo(*final(queue)) == worker_is_lifo(*old(queue)),
        item is None <==> worker_items(*old(queue)).len() == 0,
        item is None ==> worker_items(*final(queue)) == worker_items(*old(queue)),
        item matches Some(region) ==> if worker_is_lifo(*old(queue)) {
            region == worker_items(*old(queue)).last() && worker_items(*final(queue)) == worker_items(
                *old(queue),
            ).drop_last()
        } else {
            region == worker_items(*old(queue)).first() && worker_items(*final(queue)) == worker_items(
                *old(queue),
            ).drop_first()
        },
{
    queue.pop()
}

/// `crossbeam_deque::Stealer::steal`, through the stealer that `crossbeam_deque::Worker::stealer`
/// makes for this one call: takes the item that was pushed first. It reports that the queue is
/// empty exactly when it is. It asks for another attempt only where someone else changed the queue
/// meanwhile, which the exclusive reference rules out.
#[verifier::external_body]
pub(crate) fn worker_steal(queue: &mut Worker<(usize, usize)>) -> (outcome: Steal<(usize, usize)>)
    ensures
        worker_is_lifo(*final(queue)) == worker_is_lifo(*old(queue)),
        outcome is Empty <==> worker_items(*old(queue)).len() == 0,
        outcome is Success <==> worker_items(*old(queue)).len() > 0,
        outcome is Empty ==> worker_items(*final(queue)) == worker_items(*old(queue)),
        outcome matches Steal::Success(item) ==> item == worker_items(*old(queue)).first() && worker_items(
            *final(queue),
        ) == worker_items(*old(queue)).drop_first(),
{
    match queue.stealer().steal() {
        crossbeam_deque::Steal::Empty => Steal::Empty,
        crossbeam_deque::Steal::Success(item) => Steal::Success(item),
        crossbeam_deque::Steal::Retry => Steal::Retry,
    }
}

/// A region that a source gave counts, and of two that gave one the source that is asked earlier. Where none
/// gave one, the sources are empty unless one asks for another attempt.
pub proof fn law_first_source_counts<T>(answers: Answers<T>)
    ensures
        answers.global matches Steal::Success(item) ==> answers.first() == Steal::Success(item),
        !(answers.global is Success) ==> (answers.clean matches Some(Steal::Success(item)) ==> answers.first()
            == Steal::Success(item)),
        !(answers.global is Success) && !(answers.clean matches Some(Steal::Success(_))) ==> (
        answers.caches matches Some(Steal::Success(item)) ==> answers.first() == Steal::Success(item)),
        answers.first() is Empty <==> {
            &&& answers.global is Empty
            &&& answers.clean is None || answers.clean == Some(Steal::<T>::Empty)
            &&& answers.caches is None || answers.caches == Some(Steal::<T>::Empty)
        },
        answers.first() is Retry ==> !(answers.global is Success) && !(answers.clean matches Some(
            Steal::Success(_),
        )) && !(answers.caches matches Some(Steal::Success(_))),
{
}

/// A batch leaves the front of its queue as it stands there, but for what is skipped, and is popped in the
/// order in which it stood: a last-in first-out queue holds it reversed.
pub proof fn law_batch_keeps_its_order(
    source: Seq<(usize, usize)>,
    source_after: Seq<(usize, usize)>,
    dest_after: Seq<(usize, usize)>,
    lifo: bool,
    skip: nat,
    taken: nat,
    i: int,
)
    requires
        batch_moved(source, source_after, Seq::empty(), dest_after, lifo, skip, taken),
        skip <= taken,
        0 <= i < taken - skip,
    ensures
        1 <= taken <= source.len(),
        source.take(taken as int) + source_after == source,
        dest_after.len() == taken - skip,
        lifo ==> dest_after[dest_after.len() - 1 - i] == source[skip + i],
        !lifo ==> dest_after[i] == source[skip + i],
{
    assert(source.take(taken as int) + source_after =~= source);
}

/// A queue may ask for another attempt as often as can be counted before its caller gives up.
pub proof fn law_queues_may_ask_often(attempts: u64)
    ensures
        attempts <= RETRY_LIMIT,
{
}

} // verus!
