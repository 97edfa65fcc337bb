//! Session, plan and recovery record types shared by every module.
use vstd::prelude::*;

verus! {

/// Current schema of newly created recovery records.
pub const SCHEMA_VERSION: u32 = 4;

/// Upper bound on the events kept in one session record.
pub const MAX_EVENTS: usize = 2048;

pub type AppResult<T> = Result<T, String>;

/// Who owns a process lifetime and which executable file it runs.
#[derive(Debug)]
pub struct Provenance {
    pub owner_sid: String,
    pub logon_id: u64,
    pub image_file_id: String,
}

/// One exact process lifetime.
#[derive(Debug)]
pub struct Identity {
    pub pid: u32,
    pub created: u64,
    pub path: String,
    pub session_id: u32,
    pub provenance: Option<Provenance>,
}

pub open spec fn same_provenance(a: Option<Provenance>, b: Option<Provenance>) -> bool {
    match (a, b) {
        (None, None) => true,
        (Some(x), Some(y)) => x.owner_sid@ == y.owner_sid@ && x.logon_id == y.logon_id
            && x.image_file_id@ == y.image_file_id@,
        _ => false,
    }
}

/// Field-by-field equality of two identities, strings compared by content.
pub open spec fn identity_eq(a: Identity, b: Identity) -> bool {
    &&& a.pid == b.pid
    &&& a.created == b.created
    &&& a.path@ == b.path@
    &&& a.session_id == b.session_id
    &&& same_provenance(a.provenance, b.provenance)
}

pub fn provenance_equal(a: &Option<Provenance>, b: &Option<Provenance>) -> (r: bool)
    ensures
        r == same_provenance(*a, *b),
{
    match (a, b) {
        (None, None) => true,
        (Some(x), Some(y)) => x.owner_sid == y.owner_sid && x.logon_id == y.logon_id
            && x.image_file_id == y.image_file_id,
        _ => false,
    }
}

pub fn identity_equal(a: &Identity, b: &Identity) -> (r: bool)
    ensures
        r == identity_eq(*a, *b),
{
    a.pid == b.pid && a.created == b.created && a.path == b.path && a.session_id == b.session_id
        && provenance_equal(&a.provenance, &b.provenance)
}

impl PartialEq for Identity {
    fn eq(&self, other: &Self) -> (r: bool) {
        identity_equal(self, other)
    }
}

impl vstd::std_specs::cmp::PartialEqSpecImpl for Identity {
    open spec fn obeys_eq_spec() -> bool {
        true
    }

    open spec fn eq_spec(&self, other: &Identity) -> bool {
        identity_eq(*self, *other)
    }
}


/// What a process table row holds. Measurements are kept as integers:
/// GPU engine utilisation in hundredths of a percent.
#[derive(Debug, Default)]
pub struct GpuReading {
    pub adapter: String,
    pub engine: String,
    pub percent_hundredths: Option<u32>,
    pub dedicated_bytes: Option<u64>,
    pub shared_bytes: Option<u64>,
}

#[derive(Debug)]
pub struct ProcessRow {
    pub identity: Identity,
    pub parent_pid: u32,
    pub name: String,
    pub protected_reason: Option<String>,
    pub gpu: Vec<GpuReading>,
}

#[derive(Debug, Default)]
pub struct Snapshot {
    pub processes: Vec<ProcessRow>,
    pub gpu_status: String,
}

#[derive(Clone, Copy, Debug, PartialEq, Eq, Structural)]
pub enum ActionKind {
    LowerPriorities,
    Close,
    ForceClose,
}

/// File evidence bound to an executable: file identifier, size and last write time.
#[derive(Debug)]
pub struct ReopenApproval {
    pub image_file_id: String,
    pub file_size: u64,
    pub modified: u64,
}

pub open spec fn approval_eq(a: ReopenApproval, b: ReopenApproval) -> bool {
    a.image_file_id@ == b.image_file_id@ && a.file_size == b.file_size && a.modified == b.modified
}

impl PartialEq for ReopenApproval {
    fn eq(&self, other: &Self) -> (r: bool) {
        self.image_file_id == other.image_file_id && self.file_size == other.file_size
            && self.modified == other.modified
    }
}

impl vstd::std_specs::cmp::PartialEqSpecImpl for ReopenApproval {
    open spec fn obeys_eq_spec() -> bool {
        true
    }

    open spec fn eq_spec(&self, other: &ReopenApproval) -> bool {
        approval_eq(*self, *other)
    }
}

#[derive(Debug)]
pub struct ApprovedAction {
    pub target: Identity,
    pub action: ActionKind,
    pub reopen: Option<ReopenApproval>,
}

#[derive(Debug)]
pub struct Options {
    pub gpu_priority: bool,
    pub cpu_priority: bool,
    pub eco_qos: bool,
    pub memory_priority: bool,
    pub launch_game: bool,
    pub close_timeout_ms: u32,
}

/// First-run options: every policy off, no automatic launch, four-second close timeout.
pub open spec fn default_options() -> Options {
    Options {
        gpu_priority: false,
        cpu_priority: false,
        eco_qos: false,
        memory_priority: false,
        launch_game: false,
        close_timeout_ms: 4000,
    }
}

impl Default for Options {
    fn default() -> (o: Self)
        ensures
            o == default_options(),
    {
        Options {
            gpu_priority: false,
            cpu_priority: false,
            eco_qos: false,
            memory_priority: false,
            launch_game: false,
            close_timeout_ms: 4000,
        }
    }
}

#[derive(Debug)]
pub struct Settings {
    pub game_path: String,
    pub protected_paths: Vec<String>,
    pub options: Options,
}

impl Default for Settings {
    fn default() -> (s: Self)
        ensures
            s.game_path@.len() == 0,
            s.protected_paths@.len() == 0,
            s.options == default_options(),
    {
        Settings { game_path: String::new(), protected_paths: Vec::new(), options: Options::default() }
    }
}

#[derive(Debug)]
pub struct Plan {
    pub manual_mode: bool,
    pub game_path: String,
    pub game: Option<Identity>,
    pub actions: Vec<ApprovedAction>,
    pub protected_paths: Vec<String>,
    pub options: Options,
    pub consent: bool,
    pub force_consent: bool,
    pub experimental_consent: bool,
}

#[derive(Clone, Copy, Debug, PartialEq, Eq, Structural)]
pub enum Property {
    GpuPriority,
    CpuPriority,
    EcoQos,
    MemoryPriority,
}

/// Windows priority-class constants for processes.
pub const IDLE_PRIORITY_CLASS: u32 = 0x40;
pub const BELOW_NORMAL_PRIORITY_CLASS: u32 = 0x4000;
pub const NORMAL_PRIORITY_CLASS: u32 = 0x20;
pub const ABOVE_NORMAL_PRIORITY_CLASS: u32 = 0x8000;
pub const HIGH_PRIORITY_CLASS: u32 = 0x80;
pub const REALTIME_PRIORITY_CLASS: u32 = 0x100;

#[derive(Clone, Copy, Debug, PartialEq, Eq, Structural)]
pub enum Value {
    GpuPriority(i32),
    CpuPriority(u32),
    EcoQos { control: u32, state: u32 },
    MemoryPriority(u32),
}

pub open spec fn property_of(v: Value) -> Property {
    match v {
        Value::GpuPriority(_) => Property::GpuPriority,
        Value::CpuPriority(_) => Property::CpuPriority,
        Value::EcoQos { .. } => Property::EcoQos,
        Value::MemoryPriority(_) => Property::MemoryPriority,
    }
}

pub open spec fn valid_cpu_class(v: u32) -> bool {
    v == IDLE_PRIORITY_CLASS || v == BELOW_NORMAL_PRIORITY_CLASS || v == NORMAL_PRIORITY_CLASS
        || v == ABOVE_NORMAL_PRIORITY_CLASS || v == HIGH_PRIORITY_CLASS
        || v == REALTIME_PRIORITY_CLASS
}

/// Values a native getter may report: GPU scheduling classes 0..=5, the six documented
/// CPU priority classes, the three power-throttling bits (state within control), and
/// memory priorities 1..=5.
pub open spec fn valid_value(v: Value) -> bool {
    match v {
        Value::GpuPriority(c) => 0 <= c <= 5,
        Value::CpuPriority(c) => valid_cpu_class(c),
        Value::EcoQos { control, state } => control < 8 && state < 8 && (state & control) == state,
        Value::MemoryPriority(m) => 1 <= m <= 5,
    }
}

/// The lowered value: never raises an existing lower setting.
pub open spec fn background_of(v: Value) -> Value {
    match v {
        Value::GpuPriority(c) => Value::GpuPriority(if c <= 1 { c } else { 1 }),
        Value::CpuPriority(c) => Value::CpuPriority(
            if c == IDLE_PRIORITY_CLASS || c == BELOW_NORMAL_PRIORITY_CLASS {
                c
            } else {
                BELOW_NORMAL_PRIORITY_CLASS
            },
        ),
        Value::EcoQos { control, state } => Value::EcoQos { control: control | 1, state: state | 1 },
        Value::MemoryPriority(m) => Value::MemoryPriority(if m <= 2 { m } else { 2 }),
    }
}

impl Value {
    pub fn property(&self) -> (p: Property)
        ensures
            p == property_of(*self),
    {
        match self {
            Value::GpuPriority(_) => Property::GpuPriority,
            Value::CpuPriority(_) => Property::CpuPriority,
            Value::EcoQos { .. } => Property::EcoQos,
            Value::MemoryPriority(_) => Property::MemoryPriority,
        }
    }

    /// Never raise a background application's existing priority.
    pub fn background(&self) -> (r: Value)
        ensures
            r == background_of(*self),
    {
        match *self {
            Value::GpuPriority(v) => Value::GpuPriority(if v <= 1 { v } else { 1 }),
            Value::CpuPriority(v) => Value::CpuPriority(
                if v == IDLE_PRIORITY_CLASS || v == BELOW_NORMAL_PRIORITY_CLASS {
                    v
                } else {
                    BELOW_NORMAL_PRIORITY_CLASS
                },
            ),
            Value::EcoQos { control, state } => Value::EcoQos { control: control | 1, state: state | 1 },
            Value::MemoryPriority(v) => Value::MemoryPriority(if v <= 2 { v } else { 2 }),
        }
    }

    pub fn valid(&self) -> (r: bool)
        ensures
            r == valid_value(*self),
    {
        match *self {
            Value::GpuPriority(c) => 0 <= c && c <= 5,
            Value::CpuPriority(c) => c == IDLE_PRIORITY_CLASS || c == BELOW_NORMAL_PRIORITY_CLASS
                || c == NORMAL_PRIORITY_CLASS || c == ABOVE_NORMAL_PRIORITY_CLASS
                || c == HIGH_PRIORITY_CLASS || c == REALTIME_PRIORITY_CLASS,
            Value::EcoQos { control, state } => control < 8 && state < 8 && (state & control) == state,
            Value::MemoryPriority(m) => 1 <= m && m <= 5,
        }
    }
}

#[derive(Clone, Copy, Debug, PartialEq, Eq, Structural)]
pub enum ChangeState {
    Prepared,
    Applied,
    NotApplied,
    RestorePrepared,
    Restored,
    ProcessGone,
    Conflict,
    UserKept,
}

pub open spec fn change_resolved(c: ChangeState) -> bool {
    c == ChangeState::Restored || c == ChangeState::ProcessGone || c == ChangeState::UserKept
        || c == ChangeState::NotApplied
}

impl ChangeState {
    pub fn resolved(self) -> (r: bool)
        ensures
            r == change_resolved(self),
    {
        match self {
            ChangeState::Restored | ChangeState::ProcessGone | ChangeState::UserKept
            | ChangeState::NotApplied => true,
            _ => false,
        }
    }
}

#[derive(Debug)]
pub struct Change {
    pub target: Identity,
    pub before: Value,
    pub applied: Value,
    pub state: ChangeState,
    pub detail: String,
}

#[derive(Clone, Copy, Debug, PartialEq, Eq, Structural)]
pub enum CloseState {
    NotRequested,
    IntentRecorded,
    RequestedPending,
    ClosedGracefully,
    Terminated,
    KeptOpen,
    AlreadyGone,
    Failed,
}

#[derive(Debug)]
pub struct CloseRecord {
    pub target: Identity,
    pub force_allowed: bool,
    pub state: CloseState,
    pub detail: String,
}

#[derive(Clone, Copy, Debug, PartialEq, Eq, Structural)]
pub enum ReopenState {
    IntentRecorded,
    Started,
    AlreadyRunning,
    Deferred,
    Skipped,
    Indeterminate,
    UserKept,
}

pub open spec fn reopen_resolved(r: ReopenState) -> bool {
    r != ReopenState::IntentRecorded && r != ReopenState::Indeterminate
}

impl ReopenState {
    pub fn resolved(self) -> (r: bool)
        ensures
            r == reopen_resolved(self),
    {
        match self {
            ReopenState::IntentRecorded | ReopenState::Indeterminate => false,
            _ => true,
        }
    }
}

#[derive(Debug)]
pub struct ReopenRecord {
    pub target: Identity,
    pub child: Option<Identity>,
    pub state: ReopenState,
    pub detail: String,
}

#[derive(Clone, Copy, Debug, PartialEq, Eq, Structural)]
pub enum Stage {
    Pending,
    Preparing,
    Active,
    Restoring,
    Restored,
    RecoveryNeeded,
    UserAcknowledged,
}

pub open spec fn stage_finished(s: Stage) -> bool {
    s == Stage::Restored || s == Stage::UserAcknowledged
}

impl Stage {
    pub fn finished(self) -> (r: bool)
        ensures
            r == stage_finished(self),
    {
        match self {
            Stage::Restored | Stage::UserAcknowledged => true,
            _ => false,
        }
    }
}

#[derive(Debug)]
pub struct Session {
    pub schema: u32,
    pub id: String,
    pub stage: Stage,
    pub plan: Plan,
    pub worker: Option<Identity>,
    pub game: Option<Identity>,
    pub changes: Vec<Change>,
    pub closed: Vec<CloseRecord>,
    pub reopened: Vec<ReopenRecord>,
    pub events: Vec<String>,
}

impl Session {
    /// A fresh pending session: current schema, nothing attempted yet.
    pub fn new(id: String, plan: Plan) -> (s: Self)
        ensures
            s.schema == SCHEMA_VERSION,
            s.id == id,
            s.stage == Stage::Pending,
            s.plan == plan,
            s.worker is None,
            s.game is None,
            s.changes@.len() == 0,
            s.closed@.len() == 0,
            s.reopened@.len() == 0,
            s.events@.len() == 0,
    {
        Session {
            schema: SCHEMA_VERSION,
            id,
            stage: Stage::Pending,
            plan,
            worker: None,
            game: None,
            changes: Vec::new(),
            closed: Vec::new(),
            reopened: Vec::new(),
            events: Vec::new(),
        }
    }

    /// Appends an event while the bounded event list has room.
    pub fn note(&mut self, message: String)
        ensures
            old(self).events@.len() < MAX_EVENTS ==> final(self).events@ == old(self).events@.push(message),
            old(self).events@.len() >= MAX_EVENTS ==> final(self).events@ == old(self).events@,
            final(self).schema == old(self).schema,
            final(self).id == old(self).id,
            final(self).stage == old(self).stage,
            final(self).plan == old(self).plan,
            final(self).worker == old(self).worker,
            final(self).game == old(self).game,
            final(self).changes == old(self).changes,
            final(self).closed == old(self).closed,
            final(self).reopened == old(self).reopened,
    {
        if self.events.len() < MAX_EVENTS {
            self.events.push(message);
        }
    }
}

#[derive(Clone, Copy, Debug, PartialEq, Eq, Structural)]
pub enum FaultKind {
    Gone,
    Denied,
    Unsupported,
    Other,
}

#[derive(Debug)]
pub struct Fault {
    pub kind: FaultKind,
    pub message: String,
}

impl Fault {
    pub fn new(kind: FaultKind, message: &str) -> (f: Self)
        ensures
            f.kind == kind,
            f.message@ == message@,
    {
        Fault { kind, message: message.to_string() }
    }
}

pub type NativeResult<T> = Result<T, Fault>;

impl Clone for Provenance {
    fn clone(&self) -> (r: Self)
        ensures
            r == *self,
    {
        Provenance {
            owner_sid: self.owner_sid.clone(),
            logon_id: self.logon_id,
            image_file_id: self.image_file_id.clone(),
        }
    }
}

pub fn clone_provenance(p: &Option<Provenance>) -> (r: Option<Provenance>)
    ensures
        r == *p,
{
    match p {
        Some(x) => Some(x.clone()),
        None => None,
    }
}

impl Clone for Identity {
    fn clone(&self) -> (r: Self)
        ensures
            r == *self,
    {
        Identity {
            pid: self.pid,
            created: self.created,
            path: self.path.clone(),
            session_id: self.session_id,
            provenance: clone_provenance(&self.provenance),
        }
    }
}

pub fn clone_identity_option(p: &Option<Identity>) -> (r: Option<Identity>)
    ensures
        r == *p,
{
    match p {
        Some(x) => Some(x.clone()),
        None => None,
    }
}

pub fn clone_string_option(p: &Option<String>) -> (r: Option<String>)
    ensures
        r == *p,
{
    match p {
        Some(x) => Some(x.clone()),
        None => None,
    }
}

impl Clone for ReopenApproval {
    fn clone(&self) -> (r: Self)
        ensures
            r == *self,
    {
        ReopenApproval {
            image_file_id: self.image_file_id.clone(),
            file_size: self.file_size,
            modified: self.modified,
        }
    }
}

pub fn clone_approval_option(p: &Option<ReopenApproval>) -> (r: Option<ReopenApproval>)
    ensures
        r == *p,
{
    match p {
        Some(x) => Some(x.clone()),
        None => None,
    }
}

impl Clone for ApprovedAction {
    fn clone(&self) -> (r: Self)
        ensures
            r == *self,
    {
        ApprovedAction {
            target: self.target.clone(),
            action: self.action,
            reopen: clone_approval_option(&self.reopen),
        }
    }
}

impl Clone for Options {
    fn clone(&self) -> (r: Self)
        ensures
            r == *self,
    {
        Options {
            gpu_priority: self.gpu_priority,
            cpu_priority: self.cpu_priority,
            eco_qos: self.eco_qos,
            memory_priority: self.memory_priority,
            launch_game: self.launch_game,
            close_timeout_ms: self.close_timeout_ms,
        }
    }
}

/// Two plans with the same fields, vectors compared by contents.
pub open spec fn plan_eq(a: Plan, b: Plan) -> bool {
    &&& a.manual_mode == b.manual_mode
    &&& a.game_path == b.game_path
    &&& a.game == b.game
    &&& a.actions@ == b.actions@
    &&& a.protected_paths@ == b.protected_paths@
    &&& a.options == b.options
    &&& a.consent == b.consent
    &&& a.force_consent == b.force_consent
    &&& a.experimental_consent == b.experimental_consent
}

impl Clone for Plan {
    fn clone(&self) -> (r: Self)
        ensures
            plan_eq(r, *self),
    {
        let actions = self.actions.clone();
        let protected_paths = self.protected_paths.clone();
        assert(actions@ =~= self.actions@);
        assert(protected_paths@ =~= self.protected_paths@);
        Plan {
            manual_mode: self.manual_mode,
            game_path: self.game_path.clone(),
            game: clone_identity_option(&self.game),
            actions,
            protected_paths,
            options: self.options.clone(),
            consent: self.consent,
            force_consent: self.force_consent,
            experimental_consent: self.experimental_consent,
        }
    }
}

impl Clone for Settings {
    fn clone(&self) -> (r: Self)
        ensures
            r.game_path == self.game_path,
            r.protected_paths@ == self.protected_paths@,
            r.options == self.options,
    {
        let protected_paths = self.protected_paths.clone();
        assert(protected_paths@ =~= self.protected_paths@);
        Settings {
            game_path: self.game_path.clone(),
            protected_paths,
            options: self.options.clone(),
        }
    }
}

impl Clone for Change {
    fn clone(&self) -> (r: Self)
        ensures
            r == *self,
    {
        Change {
            target: self.target.clone(),
            before: self.before,
            applied: self.applied,
            state: self.state,
            detail: self.detail.clone(),
        }
    }
}

impl Clone for CloseRecord {
    fn clone(&self) -> (r: Self)
        ensures
            r == *self,
    {
        CloseRecord {
            target: self.target.clone(),
            force_allowed: self.force_allowed,
            state: self.state,
            detail: self.detail.clone(),
        }
    }
}

impl Clone for ReopenRecord {
    fn clone(&self) -> (r: Self)
        ensures
            r == *self,
    {
        ReopenRecord {
            target: self.target.clone(),
            child: clone_identity_option(&self.child),
            state: self.state,
            detail: self.detail.clone(),
        }
    }
}

/// Two session records with the same fields, vectors compared by contents.
pub open spec fn session_eq(a: Session, b: Session) -> bool {
    &&& a.schema == b.schema
    &&& a.id == b.id
    &&& a.stage == b.stage
    &&& plan_eq(a.plan, b.plan)
    &&& a.worker == b.worker
    &&& a.game == b.game
    &&& a.changes@ == b.changes@
    &&& a.closed@ == b.closed@
    &&& a.reopened@ == b.reopened@
    &&& a.events@ == b.events@
}

impl Clone for Session {
    fn clone(&self) -> (r: Self)
        ensures
            session_eq(r, *self),
    {
        let changes = self.changes.clone();
        let closed = self.closed.clone();
        let reopened = self.reopened.clone();
        let events = self.events.clone();
        assert(changes@ =~= self.changes@);
        assert(closed@ =~= self.closed@);
        assert(reopened@ =~= self.reopened@);
        assert(events@ =~= self.events@);
        Session {
            schema: self.schema,
            id: self.id.clone(),
            stage: self.stage,
            plan: self.plan.clone(),
            worker: clone_identity_option(&self.worker),
            game: clone_identity_option(&self.game),
            changes,
            closed,
            reopened,
            events,
        }
    }
}

impl Clone for Fault {
    fn clone(&self) -> (r: Self)
        ensures
            r == *self,
    {
        Fault { kind: self.kind, message: self.message.clone() }
    }
}

impl Clone for GpuReading {
    fn clone(&self) -> (r: Self)
        ensures
            r == *self,
    {
        GpuReading {
            adapter: self.adapter.clone(),
            engine: self.engine.clone(),
            percent_hundredths: self.percent_hundredths,
            dedicated_bytes: self.dedicated_bytes,
            shared_bytes: self.shared_bytes,
        }
    }
}

impl Clone for ProcessRow {
    fn clone(&self) -> (r: Self)
        ensures
            r.identity == self.identity,
            r.parent_pid == self.parent_pid,
            r.name == self.name,
            r.protected_reason == self.protected_reason,
            r.gpu@ == self.gpu@,
    {
        let gpu = self.gpu.clone();
        assert(gpu@ =~= self.gpu@);
        ProcessRow {
            identity: self.identity.clone(),
            parent_pid: self.parent_pid,
            name: self.name.clone(),
            protected_reason: clone_string_option(&self.protected_reason),
            gpu,
        }
    }
}

/// The rank of a CPU priority class, lowest first.
pub open spec fn cpu_rank(c: u32) -> int {
    if c == IDLE_PRIORITY_CLASS {
        0
    } else if c == BELOW_NORMAL_PRIORITY_CLASS {
        1
    } else if c == NORMAL_PRIORITY_CLASS {
        2
    } else if c == ABOVE_NORMAL_PRIORITY_CLASS {
        3
    } else if c == HIGH_PRIORITY_CLASS {
        4
    } else {
        5
    }
}

/// `a` asks no more of the scheduler than `b`: the same property, at most the same priority,
/// and for power throttling every bit of `b` still set.
pub open spec fn not_higher(a: Value, b: Value) -> bool {
    match (a, b) {
        (Value::GpuPriority(x), Value::GpuPriority(y)) => x <= y,
        (Value::CpuPriority(x), Value::CpuPriority(y)) => cpu_rank(x) <= cpu_rank(y),
        (Value::EcoQos { control: c1, state: s1 }, Value::EcoQos { control: c2, state: s2 }) =>
            (c1 & c2) == c2 && (s1 & s2) == s2,
        (Value::MemoryPriority(x), Value::MemoryPriority(y)) => x <= y,
        _ => false,
    }
}

/// Lowering never raises a background application's priority, keeps every other
/// throttling flag, and keeps the property it is about.
pub proof fn law_background_never_raises(v: Value)
    requires
        valid_value(v),
    ensures
        not_higher(background_of(v), v),
        property_of(background_of(v)) == property_of(v),
{
    match v {
        Value::EcoQos { control, state } => {
            assert(((control | 1) & control) == control) by (bit_vector);
            assert(((state | 1) & state) == state) by (bit_vector);
        },
        _ => {},
    }
}

/// Lowering twice is lowering once.
pub proof fn law_background_idempotent(v: Value)
    ensures
        background_of(background_of(v)) == background_of(v),
{
    match v {
        Value::EcoQos { control, state } => {
            assert(((control | 1) | 1) == (control | 1)) by (bit_vector);
            assert(((state | 1) | 1) == (state | 1)) by (bit_vector);
        },
        _ => {},
    }
}

/// A lowered value is still a value the native getters may report.
pub proof fn law_background_stays_valid(v: Value)
    requires
        valid_value(v),
    ensures
        valid_value(background_of(v)),
{
    match v {
        Value::EcoQos { control, state } => {
            assert(control < 8 && state < 8 && (state & control) == state ==> (control | 1) < 8 && (state | 1) < 8
                && ((state | 1) & (control | 1)) == (state | 1)) by (bit_vector);
        },
        _ => {},
    }
}

} // verus!
