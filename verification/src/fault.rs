//! Deterministic faults at the boundaries of persistence.
use crate::error::{PebbleError, Result};
use crate::keys::str_eq;
use crate::text::{decimal, decimal_string};
use vstd::prelude::*;

verus! {

#[derive(Debug, Clone, Copy, PartialEq, Eq, Structural)]
pub enum FaultPoint {
    BeforeWalAppend,
    AfterWalAppend,
    AfterWalFsync,
    AfterMemtableUpdate,
    BeforeSstableCreation,
    AfterSstableWrite,
    BeforeAtomicRename,
    AfterAtomicRename,
    BeforeMetadataUpdate,
    AfterMetadataUpdate,
    BeforeObsoleteFileDelete,
    AfterObsoleteFileDelete,
    BeforeWalTruncation,
    AfterWalTruncation,
    AfterCompactionOutputCreation,
}

impl FaultPoint {
    pub const ALL: [FaultPoint; 15] = [
        FaultPoint::BeforeWalAppend,
        FaultPoint::AfterWalAppend,
        FaultPoint::AfterWalFsync,
        FaultPoint::AfterMemtableUpdate,
        FaultPoint::BeforeSstableCreation,
        FaultPoint::AfterSstableWrite,
        FaultPoint::BeforeAtomicRename,
        FaultPoint::AfterAtomicRename,
        FaultPoint::BeforeMetadataUpdate,
        FaultPoint::AfterMetadataUpdate,
        FaultPoint::BeforeObsoleteFileDelete,
        FaultPoint::AfterObsoleteFileDelete,
        FaultPoint::BeforeWalTruncation,
        FaultPoint::AfterWalTruncation,
        FaultPoint::AfterCompactionOutputCreation,
    ];

    pub open spec fn text(self) -> Seq<char> {
        match self {
            FaultPoint::BeforeWalAppend => "before_wal_append"@,
            FaultPoint::AfterWalAppend => "after_wal_append"@,
            FaultPoint::AfterWalFsync => "after_wal_fsync"@,
            FaultPoint::AfterMemtableUpdate => "after_memtable_update"@,
            FaultPoint::BeforeSstableCreation => "before_sstable_creation"@,
            FaultPoint::AfterSstableWrite => "after_sstable_write"@,
            FaultPoint::BeforeAtomicRename => "before_atomic_rename"@,
            FaultPoint::AfterAtomicRename => "after_atomic_rename"@,
            FaultPoint::BeforeMetadataUpdate => "before_metadata_update"@,
            FaultPoint::AfterMetadataUpdate => "after_metadata_update"@,
            FaultPoint::BeforeObsoleteFileDelete => "before_obsolete_file_delete"@,
            FaultPoint::AfterObsoleteFileDelete => "after_obsolete_file_delete"@,
            FaultPoint::BeforeWalTruncation => "before_wal_truncation"@,
            FaultPoint::AfterWalTruncation => "after_wal_truncation"@,
            FaultPoint::AfterCompactionOutputCreation => "after_compaction_output_creation"@,
        }
    }

    pub fn name(self) -> (name: &'static str)
        ensures
            name@ == self.text(),
    {
        match self {
            FaultPoint::BeforeWalAppend => "before_wal_append",
            FaultPoint::AfterWalAppend => "after_wal_append",
            FaultPoint::AfterWalFsync => "after_wal_fsync",
            FaultPoint::AfterMemtableUpdate => "after_memtable_update",
            FaultPoint::BeforeSstableCreation => "before_sstable_creation",
            FaultPoint::AfterSstableWrite => "after_sstable_write",
            FaultPoint::BeforeAtomicRename => "before_atomic_rename",
            FaultPoint::AfterAtomicRename => "after_atomic_rename",
            FaultPoint::BeforeMetadataUpdate => "before_metadata_update",
            FaultPoint::AfterMetadataUpdate => "after_metadata_update",
            FaultPoint::BeforeObsoleteFileDelete => "before_obsolete_file_delete",
            FaultPoint::AfterObsoleteFileDelete => "after_obsolete_file_delete",
            FaultPoint::BeforeWalTruncation => "before_wal_truncation",
            FaultPoint::AfterWalTruncation => "after_wal_truncation",
            FaultPoint::AfterCompactionOutputCreation => "after_compaction_output_creation",
        }
    }

    /// The point with the given name.
    pub fn parse(name: &str) -> (point: Option<Self>)
        ensures
            match point {
                Some(point) => point.text() == name@,
                None => forall|point: FaultPoint| #[trigger] point.text() != name@,
            },
    {
        let mut i: usize = 0;
        while i < 15
            invariant
                i <= 15,
                forall|j: int| 0 <= j < i ==> (#[trigger] FaultPoint::ALL[j]).text() != name@,
            decreases 15 - i,
        {
            let point = FaultPoint::ALL[i];
            if str_eq(point.name(), name) {
                return Some(point);
            }
            i = i + 1;
        }
        proof {
            assert forall|point: FaultPoint| #[trigger] point.text() != name@ by {
                let j = point.index();
                assert(FaultPoint::ALL[j] == point);
            }
        }
        None
    }

    /// Where the point stands among all.
    pub open spec fn index(self) -> int {
        match self {
            FaultPoint::BeforeWalAppend => 0,
            FaultPoint::AfterWalAppend => 1,
            FaultPoint::AfterWalFsync => 2,
            FaultPoint::AfterMemtableUpdate => 3,
            FaultPoint::BeforeSstableCreation => 4,
            FaultPoint::AfterSstableWrite => 5,
            FaultPoint::BeforeAtomicRename => 6,
            FaultPoint::AfterAtomicRename => 7,
            FaultPoint::BeforeMetadataUpdate => 8,
            FaultPoint::AfterMetadataUpdate => 9,
            FaultPoint::BeforeObsoleteFileDelete => 10,
            FaultPoint::AfterObsoleteFileDelete => 11,
            FaultPoint::BeforeWalTruncation => 12,
            FaultPoint::AfterWalTruncation => 13,
            FaultPoint::AfterCompactionOutputCreation => 14,
        }
    }
}

/// Different points have different names.
pub proof fn law_point_names_are_distinct(a: FaultPoint, b: FaultPoint)
    requires
        a.text() == b.text(),
    ensures
        a == b,
{
    reveal_strlit("before_wal_append");
    reveal_strlit("after_wal_append");
    reveal_strlit("after_wal_fsync");
    reveal_strlit("after_memtable_update");
    reveal_strlit("before_sstable_creation");
    reveal_strlit("after_sstable_write");
    reveal_strlit("before_atomic_rename");
    reveal_strlit("after_atomic_rename");
    reveal_strlit("before_metadata_update");
    reveal_strlit("after_metadata_update");
    reveal_strlit("before_obsolete_file_delete");
    reveal_strlit("after_obsolete_file_delete");
    reveal_strlit("before_wal_truncation");
    reveal_strlit("after_wal_truncation");
    reveal_strlit("after_compaction_output_creation");
    assert(FaultPoint::BeforeWalAppend.text().len() == 17);
    assert(FaultPoint::AfterWalAppend.text().len() == 16);
    assert(FaultPoint::AfterWalFsync.text().len() == 15);
    assert(FaultPoint::AfterMemtableUpdate.text().len() == 21);
    assert(FaultPoint::BeforeSstableCreation.text().len() == 23);
    assert(FaultPoint::AfterSstableWrite.text().len() == 19);
    assert(FaultPoint::BeforeAtomicRename.text().len() == 20);
    assert(FaultPoint::AfterAtomicRename.text().len() == 19);
    assert(FaultPoint::BeforeMetadataUpdate.text().len() == 22);
    assert(FaultPoint::AfterMetadataUpdate.text().len() == 21);
    assert(FaultPoint::BeforeObsoleteFileDelete.text().len() == 27);
    assert(FaultPoint::AfterObsoleteFileDelete.text().len() == 26);
    assert(FaultPoint::BeforeWalTruncation.text().len() == 21);
    assert(FaultPoint::AfterWalTruncation.text().len() == 20);
    assert(FaultPoint::AfterCompactionOutputCreation.text().len() == 32);
    assert(FaultPoint::AfterMemtableUpdate.text()[8] == 'm');
    assert(FaultPoint::AfterMetadataUpdate.text()[8] == 't');
    assert(FaultPoint::BeforeWalTruncation.text()[8] == 'a');
    assert(FaultPoint::AfterSstableWrite.text()[6] == 's');
    assert(FaultPoint::AfterAtomicRename.text()[6] == 'a');
    assert(FaultPoint::BeforeAtomicRename.text()[6] == '_');
    assert(FaultPoint::AfterWalTruncation.text()[6] == 'w');
}

#[derive(Debug, Clone, Copy, PartialEq, Eq, Structural)]
pub enum FaultMode {
    Error,
    Abort,
}

/// Stop at the boundary `point` when it is reached for the time number `at`, and ever after.
#[derive(Debug, Clone, Copy, PartialEq, Eq, Structural)]
pub struct Fault {
    pub point: FaultPoint,
    pub at: u64,
    pub mode: FaultMode,
}

impl Fault {
    /// A fault that returns an error.
    pub fn new(point: FaultPoint, at: u64) -> (fault: Self)
        ensures
            fault == (Fault { point, at: if at < 1 { 1 } else { at }, mode: FaultMode::Error }),
    {
        Fault {
            point,
            at: if at < 1 {
                1
            } else {
                at
            },
            mode: FaultMode::Error,
        }
    }

    /// A fault that aborts the process.
    pub fn abort(point: FaultPoint, at: u64) -> (fault: Self)
        ensures
            fault == (Fault { point, at: if at < 1 { 1 } else { at }, mode: FaultMode::Abort }),
    {
        Fault {
            point,
            at: if at < 1 {
                1
            } else {
                at
            },
            mode: FaultMode::Abort,
        }
    }
}

/// Counts how often the boundary of a fault is reached.
#[derive(Debug, Clone, Copy)]
pub struct FaultInjector {
    pub fault: Option<Fault>,
    pub hits: u64,
}

impl Default for FaultInjector {
    fn default() -> (injector: Self)
        ensures
            injector == (FaultInjector { fault: None, hits: 0 }),
    {
        FaultInjector { fault: None, hits: 0 }
    }
}

impl FaultInjector {
    pub fn new(fault: Option<Fault>) -> (injector: Self)
        ensures
            injector == (FaultInjector { fault, hits: 0 }),
    {
        FaultInjector { fault, hits: 0 }
    }

    /// The injector after a boundary was reached.
    pub open spec fn reached(self, point: FaultPoint) -> FaultInjector {
        match self.fault {
            Some(fault) if fault.point == point => FaultInjector {
                fault: self.fault,
                hits: if self.hits < u64::MAX {
                    (self.hits + 1) as u64
                } else {
                    self.hits
                },
            },
            _ => self,
        }
    }

    /// Whether reaching a boundary stops the operation.
    pub open spec fn fires(self, point: FaultPoint) -> bool {
        match self.fault {
            Some(fault) => fault.point == point && self.reached(point).hits >= fault.at,
            None => false,
        }
    }

    /// The error with which it stops.
    pub open spec fn is_failure(self, point: FaultPoint, error: PebbleError) -> bool {
        match self.fault {
            Some(fault) => match fault.mode {
                FaultMode::Error => error matches PebbleError::InjectedFault(text) && text@ == point.text()
                    + " at hit "@ + decimal(self.reached(point).hits as nat),
                FaultMode::Abort => error is InjectedAbort,
            },
            None => false,
        }
    }

    /// Reaches a boundary.
    pub fn hit(&mut self, point: FaultPoint) -> (result: Result<()>)
        ensures
            *final(self) == old(self).reached(point),
            match result {
                Ok(()) => !old(self).fires(point),
                Err(error) => old(self).fires(point) && old(self).is_failure(point, error),
            },
    {
        let fault = match self.fault {
            Some(fault) => fault,
            None => {
                return Ok(());
            },
        };
        if fault.point != point {
            return Ok(());
        }
        self.hits = self.hits.saturating_add(1);
        if self.hits < fault.at {
            return Ok(());
        }
        match fault.mode {
            FaultMode::Abort => Err(PebbleError::InjectedAbort),
            FaultMode::Error => {
                let text = point.name().to_owned().concat(" at hit ").concat(decimal_string(self.hits).as_str());
                Err(PebbleError::InjectedFault(text))
            },
        }
    }
}

/// Without a configured fault nothing fires.
pub proof fn law_no_fault_never_fires(injector: FaultInjector, point: FaultPoint)
    requires
        injector.fault is None,
    ensures
        !injector.fires(point),
        injector.reached(point) == injector,
{
}

/// The names of the boundaries.
pub proof fn law_names_of_the_boundaries()
    ensures
        FaultPoint::BeforeWalAppend.text() == "before_wal_append"@,
        FaultPoint::AfterWalAppend.text() == "after_wal_append"@,
        FaultPoint::AfterWalFsync.text() == "after_wal_fsync"@,
        FaultPoint::AfterMemtableUpdate.text() == "after_memtable_update"@,
        FaultPoint::BeforeSstableCreation.text() == "before_sstable_creation"@,
        FaultPoint::AfterSstableWrite.text() == "after_sstable_write"@,
        FaultPoint::BeforeAtomicRename.text() == "before_atomic_rename"@,
        FaultPoint::AfterAtomicRename.text() == "after_atomic_rename"@,
        FaultPoint::BeforeMetadataUpdate.text() == "before_metadata_update"@,
        FaultPoint::AfterMetadataUpdate.text() == "after_metadata_update"@,
        FaultPoint::BeforeObsoleteFileDelete.text() == "before_obsolete_file_delete"@,
        FaultPoint::AfterObsoleteFileDelete.text() == "after_obsolete_file_delete"@,
        FaultPoint::BeforeWalTruncation.text() == "before_wal_truncation"@,
        FaultPoint::AfterWalTruncation.text() == "after_wal_truncation"@,
        FaultPoint::AfterCompactionOutputCreation.text() == "after_compaction_output_creation"@,
{
}

/// The error of a fault names the boundary and tells how often it has been reached; a fault that aborts
/// says so.
pub proof fn law_error_of_a_fault(injector: FaultInjector, point: FaultPoint, error: PebbleError)
    requires
        injector.fires(point),
        injector.is_failure(point, error),
        injector.hits < u64::MAX,
    ensures
        (injector.fault->Some_0).mode == FaultMode::Abort <==> error is InjectedAbort,
        (injector.fault->Some_0).mode == FaultMode::Error ==> (error matches PebbleError::InjectedFault(text) && text@
            == point.text() + " at hit "@ + decimal((injector.hits + 1) as nat)),
{
}

}
