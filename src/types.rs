//! Plain data shared by the coordinator, the clients and live repair.
use vstd::prelude::*;

verus! {

/// Identifier of a downstairs job; allocated in increasing order.
pub type JobId = u64;

/// Index of a downstairs client: 0, 1 or 2.
pub type ClientId = usize;

/// The first job id an upstairs hands out.
pub const FIRST_JOB_ID: u64 = 1000;

/// Number of recently retired job ids that are remembered.
pub const COMPLETED_CAPACITY: usize = 2048;

/// Errors surfaced by the coordinator.
#[derive(Clone, Copy, Debug, PartialEq, Eq, Structural)]
pub enum CrucibleError {
    /// The given number of the three clients failed (or skipped) the job.
    IoError(u64),
    /// The requested generation is below what the downstairs hold.
    GenerationNumberTooLow { found: u64, requested: u64 },
    UpstairsInactive,
    DecryptionError,
    NoLongerActive,
    UuidMismatch,
    ReplaceRequestInvalid,
    SnapshotExistsAlready,
    GenericError,
    /// A message named a job that is not active.
    UnknownJob,
    /// Deactivation was asked for while a downstairs is offline.
    OfflineDownstairs,
}

/// Outcome of a request to replace a downstairs.
#[derive(Clone, Copy, Debug, PartialEq, Eq, Structural)]
pub enum ReplaceResult {
    Started,
    StartedAlready,
    CompletedAlready,
    Missing,
}

/// Per-client state of one job.
#[derive(Clone, Copy, Debug, PartialEq, Eq, Structural)]
pub enum IOState {
    New,
    InProgress,
    Done,
    Skipped,
    Error(CrucibleError),
}

/// Lifecycle state of one downstairs client.
#[derive(Clone, Copy, Debug, PartialEq, Eq, Structural)]
pub enum DsState {
    New,
    WaitActive,
    WaitQuorum,
    Repair,
    FailedRepair,
    Active,
    Offline,
    Faulted,
    Replacing,
    Replaced,
    LiveRepairReady,
    LiveRepair,
    Deactivated,
    Disabled,
}

/// Geometry of the region: blocks per extent and number of extents.
#[derive(Clone, Copy, Debug, PartialEq, Eq, Structural)]
pub struct RegionGeometry {
    pub extent_size: u64,
    pub extent_count: u64,
}

/// An inclusive range of absolute block numbers touched by a guest job.
#[derive(Clone, Copy, Debug, PartialEq, Eq, Structural)]
pub struct ImpactedBlocks {
    pub first_block: u64,
    pub last_block: u64,
}

impl ImpactedBlocks {
    pub open spec fn valid(self) -> bool {
        self.first_block <= self.last_block
    }

    /// Lowest extent touched, for extents of `extent_size` blocks.
    pub open spec fn first_extent_spec(self, extent_size: u64) -> int {
        self.first_block as int / extent_size as int
    }

    /// Highest extent touched, for extents of `extent_size` blocks.
    pub open spec fn last_extent_spec(self, extent_size: u64) -> int {
        self.last_block as int / extent_size as int
    }

    pub open spec fn touches_extent(self, extent_size: u64, e: int) -> bool {
        self.first_extent_spec(extent_size) <= e <= self.last_extent_spec(extent_size)
    }

    pub open spec fn overlaps(self, other: ImpactedBlocks) -> bool {
        self.first_block <= other.last_block && other.first_block <= self.last_block
    }

    pub fn first_extent(&self, extent_size: u64) -> (r: u64)
        requires
            extent_size > 0,
        ensures
            r == self.first_extent_spec(extent_size),
    {
        self.first_block / extent_size
    }

    pub fn last_extent(&self, extent_size: u64) -> (r: u64)
        requires
            extent_size > 0,
        ensures
            r == self.last_extent_spec(extent_size),
    {
        self.last_block / extent_size
    }

    pub fn overlaps_exec(&self, other: &ImpactedBlocks) -> (r: bool)
        ensures
            r == self.overlaps(*other),
    {
        self.first_block <= other.last_block && other.first_block <= self.last_block
    }
}

/// An IPv4 socket address: the address as a 32-bit number, and the port.
#[derive(Clone, Copy, Debug, PartialEq, Eq, Structural)]
pub struct Address {
    pub ip: u32,
    pub port: u16,
}

/// Extent metadata returned by a downstairs when an extent is closed.
#[derive(Clone, Copy, Debug, PartialEq, Eq, Structural)]
pub struct ExtentInfo {
    pub generation: u64,
    pub flush_number: u64,
    pub dirty: bool,
}

/// Outcome of asking whether live repair should start.
#[derive(Clone, Copy, Debug, PartialEq, Eq, Structural)]
pub enum RepairCheck {
    /// A repair was started.
    RepairStarted,
    /// No repair is needed.
    NoRepairNeeded,
    /// Repair is needed, but one is already in progress.
    RepairInProgress,
    /// The upstairs is not in a state that allows live repair.
    InvalidState,
}

/// The four job ids used to repair one extent.
#[derive(Clone, Copy, Debug, PartialEq, Eq, Structural)]
pub struct ExtentRepairIDs {
    pub close_id: JobId,
    pub repair_id: JobId,
    pub noop_id: JobId,
    pub reopen_id: JobId,
}

/// One block of a read response, with the content hash of its data.
#[derive(Clone, Debug)]
pub struct ReadResponse {
    pub data: Vec<u8>,
    pub hash: u64,
}

/// Name of a snapshot requested with a flush.
#[derive(Clone, Debug)]
pub struct SnapshotDetails {
    pub snapshot_name: String,
}

/// The work of one downstairs job.  Every variant carries its dependencies.
#[derive(Clone, Debug)]
pub enum IOop {
    Read { dependencies: Vec<JobId>, blocks: ImpactedBlocks },
    Write { dependencies: Vec<JobId>, blocks: ImpactedBlocks, data: Vec<u8> },
    WriteUnwritten { dependencies: Vec<JobId>, blocks: ImpactedBlocks, data: Vec<u8> },
    Flush {
        dependencies: Vec<JobId>,
        flush_number: u64,
        gen_number: u64,
        snapshot_details: Option<SnapshotDetails>,
        extent_limit: Option<u64>,
    },
    ExtentFlushClose {
        dependencies: Vec<JobId>,
        extent: u64,
        flush_number: u64,
        gen_number: u64,
        source_downstairs: ClientId,
        repair_downstairs: Vec<ClientId>,
    },
    ExtentLiveRepair {
        dependencies: Vec<JobId>,
        extent: u64,
        source_downstairs: ClientId,
        /// Where the source serves the extent from.
        source_repair_address: Option<Address>,
        repair_downstairs: Vec<ClientId>,
    },
    ExtentLiveReopen { dependencies: Vec<JobId>, extent: u64 },
    ExtentLiveNoOp { dependencies: Vec<JobId> },
}

impl IOop {
    pub open spec fn deps(self) -> Seq<JobId> {
        match self {
            IOop::Read { dependencies, .. } => dependencies@,
            IOop::Write { dependencies, .. } => dependencies@,
            IOop::WriteUnwritten { dependencies, .. } => dependencies@,
            IOop::Flush { dependencies, .. } => dependencies@,
            IOop::ExtentFlushClose { dependencies, .. } => dependencies@,
            IOop::ExtentLiveRepair { dependencies, .. } => dependencies@,
            IOop::ExtentLiveReopen { dependencies, .. } => dependencies@,
            IOop::ExtentLiveNoOp { dependencies } => dependencies@,
        }
    }

    /// The blocks a guest read or write touches.
    pub open spec fn blocks_of(self) -> Option<ImpactedBlocks> {
        match self {
            IOop::Read { blocks, .. } => Some(blocks),
            IOop::Write { blocks, .. } => Some(blocks),
            IOop::WriteUnwritten { blocks, .. } => Some(blocks),
            _ => None,
        }
    }

    /// The payload of a guest write.
    pub open spec fn write_data(self) -> Seq<u8> {
        match self {
            IOop::Write { data, .. } => data@,
            IOop::WriteUnwritten { data, .. } => data@,
            _ => Seq::empty(),
        }
    }

    pub open spec fn is_write(self) -> bool {
        self is Write || self is WriteUnwritten
    }

    pub open spec fn is_repair(self) -> bool {
        self is ExtentFlushClose || self is ExtentLiveRepair || self is ExtentLiveReopen
            || self is ExtentLiveNoOp
    }

    /// Payload bytes of a write; zero for every other kind of job.
    pub open spec fn write_bytes(self) -> int {
        match self {
            IOop::Write { data, .. } => data@.len() as int,
            IOop::WriteUnwritten { data, .. } => data@.len() as int,
            _ => 0,
        }
    }

    pub fn dependencies(&self) -> (r: &Vec<JobId>)
        ensures
            r@ == self.deps(),
    {
        match self {
            IOop::Read { dependencies, .. } => dependencies,
            IOop::Write { dependencies, .. } => dependencies,
            IOop::WriteUnwritten { dependencies, .. } => dependencies,
            IOop::Flush { dependencies, .. } => dependencies,
            IOop::ExtentFlushClose { dependencies, .. } => dependencies,
            IOop::ExtentLiveRepair { dependencies, .. } => dependencies,
            IOop::ExtentLiveReopen { dependencies, .. } => dependencies,
            IOop::ExtentLiveNoOp { dependencies } => dependencies,
        }
    }

    pub fn is_flush(&self) -> (r: bool)
        ensures
            r == (*self is Flush),
    {
        matches!(self, IOop::Flush { .. })
    }

    pub fn is_repair_op(&self) -> (r: bool)
        ensures
            r == self.is_repair(),
    {
        matches!(
            self,
            IOop::ExtentFlushClose { .. } | IOop::ExtentLiveRepair { .. }
                | IOop::ExtentLiveReopen { .. } | IOop::ExtentLiveNoOp { .. }
        )
    }

    pub fn write_len(&self) -> (r: u64)
        ensures
            r == self.write_bytes(),
    {
        match self {
            IOop::Write { data, .. } => data.len() as u64,
            IOop::WriteUnwritten { data, .. } => data.len() as u64,
            _ => 0,
        }
    }
}

/// One job as the coordinator tracks it.
#[derive(Clone, Debug)]
pub struct DownstairsIO {
    pub ds_id: JobId,
    pub guest_id: u64,
    pub work: IOop,
    /// One state per client.
    pub state: Vec<IOState>,
    pub acked: bool,
    pub replay: bool,
    /// The payload of the first successful read response.
    pub data: Option<Vec<ReadResponse>>,
    /// Content hashes of the first successful read response.
    pub read_response_hashes: Vec<u64>,
}

impl DownstairsIO {
    pub open spec fn wf(self) -> bool {
        self.state@.len() == 3
    }

    /// A fresh job, `New` on every client.
    pub fn new(ds_id: JobId, guest_id: u64, work: IOop) -> (r: DownstairsIO)
        ensures
            r.ds_id == ds_id,
            r.guest_id == guest_id,
            r.work == work,
            r.state@ == seq![IOState::New, IOState::New, IOState::New],
            !r.acked,
            !r.replay,
            r.data is None,
            r.read_response_hashes@.len() == 0,
    {
        DownstairsIO {
            ds_id,
            guest_id,
            work,
            state: vec![IOState::New, IOState::New, IOState::New],
            acked: false,
            replay: false,
            data: None,
            read_response_hashes: Vec::new(),
        }
    }
}

} // verus!
