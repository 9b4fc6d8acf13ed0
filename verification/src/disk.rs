//! Operations on the files of a directory, and a directory held in memory.
use crate::error::{PebbleError, Result};
use crate::fault::{FaultInjector, FaultPoint};
use crate::keys::str_eq;
use vstd::prelude::*;

verus! {

/// The files of a directory: what each name holds.
pub type Image = Map<Seq<char>, Seq<u8>>;

/// Something done to one file.
#[derive(Debug, PartialEq)]
pub enum DiskOp {
    /// Make the file hold `data`; it is created where it does not exist.
    Write { name: String, data: Vec<u8> },
    /// Add `data` at the end of the file; it is created where it does not exist.
    Append { name: String, data: Vec<u8> },
    /// Give the file another name, in place of what has that name.
    Rename { from: String, to: String },
    /// Remove the file, where it exists.
    Remove { name: String },
    /// Cut the file to `len` bytes, where it is longer.
    Truncate { name: String, len: u64 },
    /// Force what the file holds to the device.
    Sync { name: String },
}

/// The same on mathematical values.
pub enum FileOp {
    Write { name: Seq<char>, data: Seq<u8> },
    Append { name: Seq<char>, data: Seq<u8> },
    Rename { from: Seq<char>, to: Seq<char> },
    Remove { name: Seq<char> },
    Truncate { name: Seq<char>, len: int },
    Sync { name: Seq<char> },
}

impl DiskOp {
    pub open spec fn op(&self) -> FileOp {
        match self {
            DiskOp::Write { name, data } => FileOp::Write { name: name@, data: data@ },
            DiskOp::Append { name, data } => FileOp::Append { name: name@, data: data@ },
            DiskOp::Rename { from, to } => FileOp::Rename { from: from@, to: to@ },
            DiskOp::Remove { name } => FileOp::Remove { name: name@ },
            DiskOp::Truncate { name, len } => FileOp::Truncate { name: name@, len: *len as int },
            DiskOp::Sync { name } => FileOp::Sync { name: name@ },
        }
    }
}

pub open spec fn ops_of(ops: Seq<DiskOp>) -> Seq<FileOp> {
    Seq::new(ops.len(), |i: int| ops[i].op())
}

/// What a file holds; nothing where it does not exist.
pub open spec fn file_or_empty(image: Image, name: Seq<char>) -> Seq<u8> {
    if image.dom().contains(name) {
        image[name]
    } else {
        Seq::empty()
    }
}

/// The directory after an operation.
pub open spec fn applied(image: Image, op: FileOp) -> Image {
    match op {
        FileOp::Write { name, data } => image.insert(name, data),
        FileOp::Append { name, data } => image.insert(name, file_or_empty(image, name) + data),
        FileOp::Rename { from, to } => if image.dom().contains(from) {
            image.remove(from).insert(to, image[from])
        } else {
            image
        },
        FileOp::Remove { name } => image.remove(name),
        FileOp::Truncate { name, len } => if image.dom().contains(name) && 0 <= len < image[name].len() {
            image.insert(name, image[name].take(len))
        } else {
            image
        },
        FileOp::Sync { name } => image,
    }
}

/// The directory after several operations.
pub open spec fn applied_all(image: Image, ops: Seq<FileOp>) -> Image
    decreases ops.len(),
{
    if ops.len() == 0 {
        image
    } else {
        applied(applied_all(image, ops.drop_last()), ops.last())
    }
}

/// What an operation may leave when the process ends while it runs. Writing and appending can
/// stop anywhere; the other operations happen or do not.
pub open spec fn interrupted(image: Image, op: FileOp, left: Image) -> bool {
    ||| left == image
    ||| left == applied(image, op)
    ||| match op {
        FileOp::Write { name, data } => exists|n: int|
            0 <= n < data.len() && left == applied(image, FileOp::Write { name, data: #[trigger] data.take(n) }),
        FileOp::Append { name, data } => exists|n: int|
            0 <= n < data.len() && left == applied(image, FileOp::Append { name, data: #[trigger] data.take(n) }),
        _ => false,
    }
}

/// What may be left when the process ends somewhere in a series of operations.
pub open spec fn crash_leaves(image: Image, ops: Seq<FileOp>, left: Image) -> bool {
    ||| left == applied_all(image, ops)
    ||| exists|i: int|
        0 <= i < ops.len() && interrupted(applied_all(image, ops.take(i)), #[trigger] ops[i], left)
}

pub proof fn lemma_applied_concat(image: Image, a: Seq<FileOp>, b: Seq<FileOp>)
    ensures
        applied_all(image, a + b) == applied_all(applied_all(image, a), b),
    decreases b.len(),
{
    if b.len() == 0 {
        assert(a + b =~= a);
    } else {
        assert((a + b).drop_last() =~= a + b.drop_last());
        lemma_applied_concat(image, a, b.drop_last());
    }
}

/// A crash in two series of operations is a crash in the first or one in the second.
pub proof fn lemma_crash_concat(image: Image, a: Seq<FileOp>, b: Seq<FileOp>, left: Image)
    requires
        crash_leaves(image, a + b, left),
    ensures
        crash_leaves(image, a, left) || crash_leaves(applied_all(image, a), b, left),
{
    lemma_applied_concat(image, a, b);
    if left != applied_all(image, a + b) {
        let i = choose|i: int|
            0 <= i < (a + b).len() && interrupted(applied_all(image, (a + b).take(i)), #[trigger] (a + b)[i], left);
        if i < a.len() {
            assert((a + b).take(i) =~= a.take(i));
            assert((a + b)[i] == a[i]);
            assert(interrupted(applied_all(image, a.take(i)), a[i], left));
        } else {
            let j = i - a.len();
            assert((a + b).take(i) =~= a + b.take(j));
            lemma_applied_concat(image, a, b.take(j));
            assert((a + b)[i] == b[j]);
            assert(interrupted(applied_all(applied_all(image, a), b.take(j)), b[j], left));
        }
    }
}

/// A step of an operation on the database: a boundary at which a fault can stop it, something
/// done to a file, or a limit that must hold.
pub enum Step {
    Point(FaultPoint),
    Op(FileOp),
    Limit { holds: bool, in_log: bool, problem: Seq<char> },
}

/// Why a series of steps stopped.
pub enum Stop {
    Fault { point: FaultPoint, injector: FaultInjector },
    Limit { in_log: bool, problem: Seq<char> },
}

/// How far a series of steps has come: the state of the fault, the operations so far, and why
/// it stopped, if it did.
pub struct Run {
    pub injector: FaultInjector,
    pub ops: Seq<FileOp>,
    pub stop: Option<Stop>,
}

/// Goes on with one step, unless it has stopped.
pub open spec fn run_step(before: Run, step: Step) -> Run {
    if before.stop is Some {
        before
    } else {
        match step {
            Step::Point(point) => Run {
                injector: before.injector.reached(point),
                ops: before.ops,
                stop: if before.injector.fires(point) {
                    Some(Stop::Fault { point, injector: before.injector })
                } else {
                    None
                },
            },
            Step::Op(op) => Run { injector: before.injector, ops: before.ops.push(op), stop: None },
            Step::Limit { holds, in_log, problem } => if holds {
                before
            } else {
                Run { injector: before.injector, ops: before.ops, stop: Some(Stop::Limit { in_log, problem }) }
            },
        }
    }
}

/// Goes on with the steps until one of them stops the series.
pub open spec fn run_from(start: Run, steps: Seq<Step>) -> Run
    decreases steps.len(),
{
    if steps.len() == 0 {
        start
    } else {
        run_step(run_from(start, steps.drop_last()), steps.last())
    }
}

/// The error for the reason of a stop.
pub open spec fn is_stop_error(stop: Stop, error: PebbleError) -> bool {
    match stop {
        Stop::Fault { point, injector } => injector.is_failure(point, error),
        Stop::Limit { in_log, problem } => if in_log {
            error matches PebbleError::WalCorruption(text) && text@ == problem
        } else {
            error matches PebbleError::SSTableCorruption(text) && text@ == problem
        },
    }
}

/// Whether `end` is how far the run came, apart from why it stopped.
pub open spec fn reaches(run: Run, end: Run) -> bool {
    end.injector == run.injector && end.ops == run.ops
}

/// Whether `result` tells that, and why, the run stopped.
pub open spec fn tells<T>(run: Run, result: Result<T>) -> bool {
    match result {
        Ok(_) => run.stop is None,
        Err(error) => run.stop matches Some(stop) && is_stop_error(stop, error),
    }
}

/// A run that has stopped goes no further.
pub proof fn lemma_stopped(start: Run, steps: Seq<Step>)
    requires
        start.stop is Some,
    ensures
        run_from(start, steps) == start,
    decreases steps.len(),
{
    if steps.len() > 0 {
        lemma_stopped(start, steps.drop_last());
    }
}

/// One series of steps behind another.
pub proof fn lemma_run_concat(start: Run, a: Seq<Step>, b: Seq<Step>)
    ensures
        run_from(start, a + b) == run_from(run_from(start, a), b),
    decreases b.len(),
{
    if b.len() == 0 {
        assert(a + b =~= a);
    } else {
        assert((a + b).drop_last() =~= a + b.drop_last());
        lemma_run_concat(start, a, b.drop_last());
    }
}

/// The step number `i` of a series, and what it means for the whole series when it stops it.
pub proof fn lemma_next(start: Run, steps: Seq<Step>, i: int)
    requires
        0 <= i < steps.len(),
    ensures
        run_from(start, steps.take(i + 1)) == run_step(run_from(start, steps.take(i)), steps[i]),
        run_from(start, steps.take(i + 1)).stop is Some ==> run_from(start, steps) == run_from(start, steps.take(i + 1)),
        i + 1 == steps.len() ==> run_from(start, steps) == run_from(start, steps.take(i + 1)),
        steps.take(0) == Seq::<Step>::empty(),
{
    assert(steps.take(i + 1).drop_last() =~= steps.take(i));
    assert(steps.take(i + 1) + steps.skip(i + 1) =~= steps);
    lemma_run_concat(start, steps.take(i + 1), steps.skip(i + 1));
    if run_from(start, steps.take(i + 1)).stop is Some {
        lemma_stopped(run_from(start, steps.take(i + 1)), steps.skip(i + 1));
    }
    if i + 1 == steps.len() {
        assert(steps.take(i + 1) =~= steps);
    }
    assert(steps.take(0) =~= Seq::<Step>::empty());
}

/// The operations of the steps, were nothing to stop them.
pub open spec fn all_ops(steps: Seq<Step>) -> Seq<FileOp>
    decreases steps.len(),
{
    if steps.len() == 0 {
        Seq::empty()
    } else {
        match steps.last() {
            Step::Op(op) => all_ops(steps.drop_last()).push(op),
            _ => all_ops(steps.drop_last()),
        }
    }
}

/// A run does the first of the operations, and all of them when nothing stops it.
pub proof fn law_run_does_a_prefix(start: Run, steps: Seq<Step>) -> (count: int)
    requires
        start.stop is None,
    ensures
        0 <= count <= all_ops(steps).len(),
        run_from(start, steps).ops == start.ops + all_ops(steps).take(count),
        run_from(start, steps).stop is None ==> count == all_ops(steps).len(),
    decreases steps.len(),
{
    if steps.len() == 0 {
        assert(start.ops + all_ops(steps).take(0) =~= start.ops);
        0
    } else {
        let count = law_run_does_a_prefix(start, steps.drop_last());
        let before = run_from(start, steps.drop_last());
        let earlier = all_ops(steps.drop_last());
        assert(all_ops(steps).take(count) =~= earlier.take(count));
        if before.stop is None {
            if let Step::Op(op) = steps.last() {
                assert(run_from(start, steps).ops =~= start.ops + all_ops(steps).take(count + 1));
                count + 1
            } else {
                count
            }
        } else {
            count
        }
    }
}

/// Without a fault only a limit stops a run.
pub proof fn law_only_limits_stop_without_a_fault(start: Run, steps: Seq<Step>)
    requires
        start.stop is None,
        start.injector.fault is None,
        forall|i: int| 0 <= i < steps.len() ==> (#[trigger] steps[i] matches Step::Limit { holds, .. } ==> holds),
    ensures
        run_from(start, steps).stop is None,
        run_from(start, steps).injector == start.injector,
    decreases steps.len(),
{
    if steps.len() > 0 {
        let before = steps.drop_last();
        assert forall|i: int| 0 <= i < before.len() implies (#[trigger] before[i] matches Step::Limit { holds, .. }
            ==> holds) by {
            assert(before[i] == steps[i]);
        }
        law_only_limits_stop_without_a_fault(start, before);
        assert(steps[steps.len() - 1] == steps.last());
    }
}

pub proof fn lemma_all_ops_concat(a: Seq<Step>, b: Seq<Step>)
    ensures
        all_ops(a + b) == all_ops(a) + all_ops(b),
    decreases b.len(),
{
    if b.len() == 0 {
        assert(a + b =~= a);
        assert(all_ops(a) + all_ops(b) =~= all_ops(a));
    } else {
        assert((a + b).drop_last() =~= a + b.drop_last());
        lemma_all_ops_concat(a, b.drop_last());
        assert(all_ops(a + b) =~= all_ops(a) + all_ops(b));
    }
}

/// The files of a directory in memory, and what was done to them.
pub struct Directory {
    files: Vec<(String, Vec<u8>)>,
    ops: Vec<DiskOp>,
}

impl Directory {
    /// The names, in the order in which the directory lists them.
    pub closed spec fn listing(&self) -> Seq<Seq<char>> {
        Seq::new(self.files@.len(), |i: int| self.files@[i].0@)
    }

    pub closed spec fn image(&self) -> Image {
        Map::new(
            |name: Seq<char>| exists|i: int| 0 <= i < self.files@.len() && (#[trigger] self.files@[i]).0@ == name,
            |name: Seq<char>| self.files@[self.position(name)].1@,
        )
    }

    /// What was done since the operations were last taken.
    pub closed spec fn done(&self) -> Seq<FileOp> {
        ops_of(self.ops@)
    }

    spec fn position(&self, name: Seq<char>) -> int {
        choose|i: int| 0 <= i < self.files@.len() && (#[trigger] self.files@[i]).0@ == name
    }

    /// No name is there twice.
    pub closed spec fn wf(&self) -> bool {
        forall|i: int, j: int|
            0 <= i < self.files@.len() && 0 <= j < self.files@.len() && (#[trigger] self.files@[i]).0@ == (
            #[trigger] self.files@[j]).0@ ==> i == j
    }

    /// The listing has every name once.
    pub proof fn lemma_listing(&self)
        requires
            self.wf(),
        ensures
            self.listing().no_duplicates(),
            forall|name: Seq<char>| #[trigger] self.listing().contains(name) <==> self.image().dom().contains(name),
    {
        assert forall|i: int, j: int| 0 <= i < j < self.listing().len() implies self.listing()[i]
            != self.listing()[j] by {
            assert(self.files@[i].0@ == self.listing()[i]);
            assert(self.files@[j].0@ == self.listing()[j]);
        }
        assert forall|name: Seq<char>| #[trigger] self.listing().contains(name) <==> self.image().dom().contains(
            name,
        ) by {
            if self.listing().contains(name) {
                let i = choose|i: int| 0 <= i < self.listing().len() && self.listing()[i] == name;
                assert(self.files@[i].0@ == name);
            }
            if self.image().dom().contains(name) {
                let i = choose|i: int| 0 <= i < self.files@.len() && (#[trigger] self.files@[i]).0@ == name;
                assert(self.listing()[i] == name);
            }
        }
    }

    proof fn lemma_at(&self, i: int)
        requires
            self.wf(),
            0 <= i < self.files@.len(),
        ensures
            self.image().dom().contains(self.files@[i].0@),
            self.image()[self.files@[i].0@] == self.files@[i].1@,
    {
        let name = self.files@[i].0@;
        let p = self.position(name);
        assert(self.files@[p].0@ == name);
    }

    pub fn new() -> (dir: Self)
        ensures
            dir.wf(),
            dir.image() == Map::<Seq<char>, Seq<u8>>::empty(),
            dir.done() == Seq::<FileOp>::empty(),
    {
        let dir = Directory { files: Vec::new(), ops: Vec::new() };
        proof {
            assert(dir.image() =~= Map::<Seq<char>, Seq<u8>>::empty());
            assert(dir.done() =~= Seq::<FileOp>::empty());
        }
        dir
    }

    /// The number of files.
    pub fn len(&self) -> (len: usize)
        ensures
            len == self.listing().len(),
    {
        self.files.len()
    }

    /// The name number `i` of the listing.
    pub fn name(&self, i: usize) -> (name: &str)
        requires
            i < self.listing().len(),
        ensures
            name@ == self.listing()[i as int],
    {
        self.files[i].0.as_str()
    }

    /// What the file number `i` of the listing holds.
    pub fn data(&self, i: usize) -> (data: &Vec<u8>)
        requires
            self.wf(),
            i < self.listing().len(),
        ensures
            self.image().dom().contains(self.listing()[i as int]),
            data@ == self.image()[self.listing()[i as int]],
    {
        proof {
            self.lemma_at(i as int);
        }
        &self.files[i].1
    }

    fn find(&self, name: &str) -> (found: Option<usize>)
        requires
            self.wf(),
        ensures
            match found {
                Some(i) => i < self.files@.len() && self.files@[i as int].0@ == name@,
                None => !self.image().dom().contains(name@),
            },
    {
        let mut i: usize = 0;
        while i < self.files.len()
            invariant
                i <= self.files@.len(),
                forall|j: int| 0 <= j < i ==> (#[trigger] self.files@[j]).0@ != name@,
            decreases self.files@.len() - i,
        {
            if str_eq(self.files[i].0.as_str(), name) {
                return Some(i);
            }
            i = i + 1;
        }
        None
    }

    /// What a file holds.
    pub fn read(&self, name: &str) -> (data: Option<&Vec<u8>>)
        requires
            self.wf(),
        ensures
            match data {
                Some(data) => self.image().dom().contains(name@) && self.image()[name@] == data@,
                None => !self.image().dom().contains(name@),
            },
    {
        match self.find(name) {
            Some(i) => {
                proof {
                    self.lemma_at(i as int);
                }
                Some(&self.files[i].1)
            },
            None => None,
        }
    }

    /// Makes a file hold `data`.
    pub fn put(&mut self, name: String, data: Vec<u8>)
        requires
            old(self).wf(),
        ensures
            final(self).wf(),
            final(self).image() == old(self).image().insert(name@, data@),
            final(self).done() == old(self).done(),
    {
        let ghost before = *self;
        let ghost content = data@;
        let ghost key = name@;
        match self.find(name.as_str()) {
            Some(i) => {
                self.files[i] = (name, data);
                proof {
                    self.lemma_replaced(before, i as int, key, content);
                }
            },
            None => {
                self.files.push((name, data));
                proof {
                    self.lemma_added(before, key, content);
                }
            },
        }
    }

    proof fn lemma_replaced(&self, before: Directory, i: int, name: Seq<char>, data: Seq<u8>)
        requires
            before.wf(),
            0 <= i < before.files@.len(),
            before.files@[i].0@ == name,
            self.files@.len() == before.files@.len(),
            self.files@[i].0@ == name,
            self.files@[i].1@ == data,
            forall|j: int| 0 <= j < self.files@.len() && j != i ==> #[trigger] self.files@[j] == before.files@[j],
        ensures
            self.wf(),
            self.image() == before.image().insert(name, data),
    {
        assert forall|a: int, b: int|
            0 <= a < self.files@.len() && 0 <= b < self.files@.len() && (#[trigger] self.files@[a]).0@ == (
            #[trigger] self.files@[b]).0@ implies a == b by {
            assert(before.files@[a].0@ == self.files@[a].0@);
            assert(before.files@[b].0@ == self.files@[b].0@);
        }
        assert forall|key: Seq<char>| #[trigger] self.image().dom().contains(key) <==> before.image().insert(
            name,
            data,
        ).dom().contains(key) by {
            if self.image().dom().contains(key) {
                let j = choose|j: int| 0 <= j < self.files@.len() && (#[trigger] self.files@[j]).0@ == key;
                assert(before.files@[j].0@ == key);
            }
            if before.image().dom().contains(key) {
                let j = choose|j: int| 0 <= j < before.files@.len() && (#[trigger] before.files@[j]).0@ == key;
                assert(self.files@[j].0@ == key);
            }
            if key == name {
                assert(self.files@[i].0@ == key);
            }
        }
        assert forall|key: Seq<char>| #[trigger] self.image().dom().contains(key) implies self.image()[key]
            == before.image().insert(name, data)[key] by {
            let j = choose|j: int| 0 <= j < self.files@.len() && (#[trigger] self.files@[j]).0@ == key;
            self.lemma_at(j);
            if j != i {
                before.lemma_at(j);
                assert(self.files@[i].0@ == name);
            }
        }
        assert(self.image() =~= before.image().insert(name, data));
    }

    proof fn lemma_added(&self, before: Directory, name: Seq<char>, data: Seq<u8>)
        requires
            before.wf(),
            !before.image().dom().contains(name),
            self.files@.len() == before.files@.len() + 1,
            self.files@[before.files@.len() as int].0@ == name,
            self.files@[before.files@.len() as int].1@ == data,
            forall|j: int| 0 <= j < before.files@.len() ==> #[trigger] self.files@[j] == before.files@[j],
        ensures
            self.wf(),
            self.image() == before.image().insert(name, data),
    {
        let n = before.files@.len() as int;
        assert forall|a: int, b: int|
            0 <= a < self.files@.len() && 0 <= b < self.files@.len() && (#[trigger] self.files@[a]).0@ == (
            #[trigger] self.files@[b]).0@ implies a == b by {
            if a < n {
                before.lemma_at(a);
            }
            if b < n {
                before.lemma_at(b);
            }
        }
        assert forall|key: Seq<char>| #[trigger] self.image().dom().contains(key) <==> before.image().insert(
            name,
            data,
        ).dom().contains(key) by {
            if self.image().dom().contains(key) {
                let j = choose|j: int| 0 <= j < self.files@.len() && (#[trigger] self.files@[j]).0@ == key;
                if j < n {
                    assert(before.files@[j].0@ == key);
                }
            }
            if before.image().dom().contains(key) {
                let j = choose|j: int| 0 <= j < before.files@.len() && (#[trigger] before.files@[j]).0@ == key;
                assert(self.files@[j].0@ == key);
            }
            if key == name {
                assert(self.files@[n].0@ == key);
            }
        }
        assert forall|key: Seq<char>| #[trigger] self.image().dom().contains(key) implies self.image()[key]
            == before.image().insert(name, data)[key] by {
            let j = choose|j: int| 0 <= j < self.files@.len() && (#[trigger] self.files@[j]).0@ == key;
            self.lemma_at(j);
            if j < n {
                before.lemma_at(j);
            }
        }
        assert(self.image() =~= before.image().insert(name, data));
    }

    fn remove(&mut self, name: &str) -> (removed: Option<Vec<u8>>)
        requires
            old(self).wf(),
        ensures
            final(self).wf(),
            final(self).image() == old(self).image().remove(name@),
            final(self).done() == old(self).done(),
            match removed {
                Some(data) => old(self).image().dom().contains(name@) && old(self).image()[name@] == data@,
                None => !old(self).image().dom().contains(name@),
            },
    {
        let ghost before = *self;
        match self.find(name) {
            Some(i) => {
                proof {
                    before.lemma_at(i as int);
                }
                let file = self.files.remove(i);
                proof {
                    self.lemma_removed(before, i as int, name@);
                }
                Some(file.1)
            },
            None => {
                proof {
                    assert(before.image().remove(name@) =~= before.image());
                }
                None
            },
        }
    }

    proof fn lemma_removed(&self, before: Directory, i: int, name: Seq<char>)
        requires
            before.wf(),
            0 <= i < before.files@.len(),
            before.files@[i].0@ == name,
            self.files@ == before.files@.remove(i),
        ensures
            self.wf(),
            self.image() == before.image().remove(name),
    {
        assert forall|a: int, b: int|
            0 <= a < self.files@.len() && 0 <= b < self.files@.len() && (#[trigger] self.files@[a]).0@ == (
            #[trigger] self.files@[b]).0@ implies a == b by {
            let oa = if a < i { a } else { a + 1 };
            let ob = if b < i { b } else { b + 1 };
            assert(before.files@[oa] == self.files@[a]);
            assert(before.files@[ob] == self.files@[b]);
        }
        assert forall|key: Seq<char>| #[trigger] self.image().dom().contains(key) <==> before.image().remove(
            name,
        ).dom().contains(key) by {
            if self.image().dom().contains(key) {
                let j = choose|j: int| 0 <= j < self.files@.len() && (#[trigger] self.files@[j]).0@ == key;
                let oj = if j < i { j } else { j + 1 };
                assert(before.files@[oj] == self.files@[j]);
                assert(key != name);
            }
            if before.image().dom().contains(key) && key != name {
                let j = choose|j: int| 0 <= j < before.files@.len() && (#[trigger] before.files@[j]).0@ == key;
                let nj = if j < i { j } else { j - 1 };
                assert(self.files@[nj] == before.files@[j]);
            }
        }
        assert forall|key: Seq<char>| #[trigger] self.image().dom().contains(key) implies self.image()[key]
            == before.image().remove(name)[key] by {
            let j = choose|j: int| 0 <= j < self.files@.len() && (#[trigger] self.files@[j]).0@ == key;
            let oj = if j < i { j } else { j + 1 };
            self.lemma_at(j);
            before.lemma_at(oj);
            assert(before.files@[oj] == self.files@[j]);
        }
        assert(self.image() =~= before.image().remove(name));
    }

    /// Does what `op` says.
    pub fn apply(&mut self, op: &DiskOp)
        requires
            old(self).wf(),
        ensures
            final(self).wf(),
            final(self).image() == applied(old(self).image(), op.op()),
            final(self).done() == old(self).done(),
    {
        match op {
            DiskOp::Write { name, data } => {
                self.put(name.clone(), copy_bytes(data));
            },
            DiskOp::Append { name, data } => {
                let mut content: Vec<u8> = match self.read(name.as_str()) {
                    Some(content) => copy_bytes(content),
                    None => Vec::new(),
                };
                crate::bytes::push_bytes(&mut content, data.as_slice());
                proof {
                    assert(content@ =~= file_or_empty(self.image(), name@) + data@);
                }
                self.put(name.clone(), content);
            },
            DiskOp::Rename { from, to } => {
                match self.remove(from.as_str()) {
                    Some(data) => {
                        self.put(to.clone(), data);
                    },
                    None => {
                        proof {
                            assert(old(self).image().remove(from@) =~= old(self).image());
                        }
                    },
                }
            },
            DiskOp::Remove { name } => {
                let _ = self.remove(name.as_str());
            },
            DiskOp::Truncate { name, len } => {
                let cut: Option<Vec<u8>> = match self.read(name.as_str()) {
                    Some(content) => if (content.len() as u64) > *len {
                        Some(crate::bytes::copy_range(content.as_slice(), 0, *len as usize))
                    } else {
                        None
                    },
                    None => None,
                };
                match cut {
                    Some(content) => {
                        proof {
                            assert(content@ =~= self.image()[name@].take(*len as int));
                        }
                        self.put(name.clone(), content);
                    },
                    None => {},
                }
            },
            DiskOp::Sync { name } => {},
        }
    }

    /// Does what `op` says and remembers it.
    pub fn perform(&mut self, op: DiskOp)
        requires
            old(self).wf(),
        ensures
            final(self).wf(),
            final(self).image() == applied(old(self).image(), op.op()),
            final(self).done() == old(self).done().push(op.op()),
    {
        self.apply(&op);
        let ghost before = *self;
        self.ops.push(op);
        proof {
            assert(ops_of(self.ops@) =~= ops_of(before.ops@).push(op.op()));
            assert(self.image() =~= before.image());
        }
    }

    /// What was done, oldest first; afterwards nothing counts as done.
    pub fn take_ops(&mut self) -> (ops: Vec<DiskOp>)
        requires
            old(self).wf(),
        ensures
            ops_of(ops@) == old(self).done(),
            final(self).done() == Seq::<FileOp>::empty(),
            final(self).wf(),
            final(self).image() == old(self).image(),
            final(self).listing() == old(self).listing(),
    {
        let mut ops: Vec<DiskOp> = Vec::new();
        core::mem::swap(&mut ops, &mut self.ops);
        proof {
            assert(self.done() =~= Seq::<FileOp>::empty());
            assert(self.image() =~= old(self).image());
        }
        ops
    }
}

/// The same bytes again.
pub fn copy_bytes(data: &Vec<u8>) -> (copy: Vec<u8>)
    ensures
        copy@ == data@,
{
    let copy = crate::bytes::copy_range(data.as_slice(), 0, data.len());
    proof {
        assert(copy@ =~= data@);
    }
    copy
}

/// What the operations on files do, and that each leaves all other files alone.
pub proof fn law_operations_on_files(image: Image, name: Seq<char>, data: Seq<u8>, len: int, to: Seq<char>, other: Seq<char>)
    ensures
        ({
            let write = applied(image, FileOp::Write { name, data });
            let append = applied(image, FileOp::Append { name, data });
            let truncate = applied(image, FileOp::Truncate { name, len });
            let remove = applied(image, FileOp::Remove { name });
            let rename = applied(image, FileOp::Rename { from: name, to });
            &&& write.dom().contains(name) && write[name] == data
            &&& append.dom().contains(name) && append[name] == (if image.dom().contains(name) {
                image[name] + data
            } else {
                data
            })
            &&& image.dom().contains(name) && 0 <= len <= image[name].len() ==> truncate.dom().contains(name)
                && truncate[name] == image[name].subrange(0, len)
            &&& !remove.dom().contains(name)
            &&& image.dom().contains(name) && to != name ==> rename.dom().contains(to) && rename[to] == image[name]
                && !rename.dom().contains(name)
            &&& applied(image, FileOp::Sync { name }) == image
            &&& other != name ==> {
                &&& write.dom().contains(other) == image.dom().contains(other) && write[other] == image[other]
                &&& append.dom().contains(other) == image.dom().contains(other) && append[other] == image[other]
                &&& truncate.dom().contains(other) == image.dom().contains(other) && truncate[other] == image[other]
                &&& image.dom().contains(other) ==> remove.dom().contains(other) && remove[other] == image[other]
                &&& other != to && image.dom().contains(other) ==> rename.dom().contains(other) && rename[other]
                    == image[other]
                &&& other != to && !image.dom().contains(other) ==> !rename.dom().contains(other)
            }
        }),
{
    if image.dom().contains(name) {
        if 0 <= len <= image[name].len() {
            assert(image[name].take(len) =~= image[name].subrange(0, len));
            if len == image[name].len() {
                assert(image[name].subrange(0, len) =~= image[name]);
            }
        }
    } else {
        assert(Seq::<u8>::empty() + data =~= data);
    }
}

}
