//! Plain plan descriptions: the data carried from SQL planning to execution
//! for the statements whose plans are pure data. These are inert records —
//! the planning and execution engines around them are other components — but
//! they are part of this crate's public surface so that callers can build
//! and inspect them.

use vstd::prelude::*;

verus! {

/// An identifier of one database.
#[derive(Clone, Copy, Debug, PartialEq, Eq, Structural)]
pub struct DatabaseId(pub u64);

/// An identifier of one schema.
#[derive(Clone, Copy, Debug, PartialEq, Eq, Structural)]
pub struct SchemaId(pub u64);

/// Which database a schema lives in: the ambient (databaseless) scope or a
/// named database.
#[derive(Clone, Copy, Debug, PartialEq, Eq, Structural)]
pub enum ResolvedDatabaseSpecifier {
    Ambient,
    Id(DatabaseId),
}

/// The kind of object a statement talks about.
#[derive(Clone, Copy, Debug, PartialEq, Eq, Structural)]
pub enum ObjectType {
    Table,
    View,
    MaterializedView,
    Source,
    Sink,
    Index,
    Type,
    Role,
    Cluster,
    ClusterReplica,
    Secret,
    Connection,
}

/// The severity a RAISE statement asks for.
#[derive(Clone, Copy, Debug, PartialEq, Eq, Structural)]
pub enum NoticeSeverity {
    Debug,
    Info,
    Log,
    Notice,
    Warning,
}

/// The value a SET statement assigns: a bare identifier, a literal, or the
/// variable's default.
#[derive(Clone, Debug, PartialEq, Eq)]
pub enum SetVariableValue {
    Ident(String),
    Literal(String),
    Default,
}

/// Creates a database.
#[derive(Debug)]
pub struct CreateDatabasePlan {
    pub name: String,
    pub if_not_exists: bool,
}

/// Creates a schema in a database.
#[derive(Debug)]
pub struct CreateSchemaPlan {
    pub database_spec: ResolvedDatabaseSpecifier,
    pub schema_name: String,
    pub if_not_exists: bool,
}

/// Creates a role.
#[derive(Debug)]
pub struct CreateRolePlan {
    pub name: String,
}

/// Configuration of introspection for a cluster replica.
#[derive(Clone, Copy, Debug, PartialEq, Eq, Structural)]
pub struct ComputeReplicaIntrospectionConfig {
    /// Whether to introspect the introspection.
    pub debugging: bool,
    /// The interval at which to introspect, in milliseconds.
    pub interval: u64,
}

/// Compute-side configuration of a cluster replica.
#[derive(Clone, Debug)]
pub struct ComputeReplicaConfig {
    pub introspection: Option<ComputeReplicaIntrospectionConfig>,
    pub idle_arrangement_merge_effort: Option<u32>,
}

/// How a cluster replica is provisioned: addressed by hand or managed by
/// size.
#[derive(Clone, Debug)]
pub enum ReplicaConfig {
    Unmanaged {
        storagectl_addr: String,
        computectl_addrs: Vec<String>,
        compute_addrs: Vec<String>,
        workers: usize,
        compute: ComputeReplicaConfig,
    },
    Managed {
        size: String,
        availability_zone: Option<String>,
        compute: ComputeReplicaConfig,
    },
}

/// Creates a cluster with the named replicas.
#[derive(Debug)]
pub struct CreateClusterPlan {
    pub name: String,
    pub replicas: Vec<(String, ReplicaConfig)>,
}

/// Drops a database, when it exists.
#[derive(Debug)]
pub struct DropDatabasePlan {
    pub id: Option<DatabaseId>,
}

/// Drops a schema, when it exists.
#[derive(Debug)]
pub struct DropSchemaPlan {
    pub id: Option<(DatabaseId, SchemaId)>,
}

/// Drops the named roles.
#[derive(Debug)]
pub struct DropRolesPlan {
    pub names: Vec<String>,
}

/// Shows one session variable.
#[derive(Debug)]
pub struct ShowVariablePlan {
    pub name: String,
}

/// Sets one session variable.
#[derive(Debug)]
pub struct SetVariablePlan {
    pub name: String,
    pub value: SetVariableValue,
    pub local: bool,
}

/// Resets one session variable to its default.
#[derive(Debug)]
pub struct ResetVariablePlan {
    pub name: String,
}

/// Generated by an ALTER ... IF EXISTS whose object did not exist.
#[derive(Debug)]
pub struct AlterNoopPlan {
    pub object_type: ObjectType,
}

/// How an ALTER statement changes one option.
#[derive(Clone, Debug)]
pub enum AlterOptionParameter {
    SetTo(String),
    Reset,
    Unchanged,
}

/// Sets one system variable.
#[derive(Debug)]
pub struct AlterSystemSetPlan {
    pub name: String,
    pub value: SetVariableValue,
}

/// Resets one system variable to its default.
#[derive(Debug)]
pub struct AlterSystemResetPlan {
    pub name: String,
}

/// Resets every system variable to its default.
#[derive(Debug)]
pub struct AlterSystemResetAllPlan {
}

/// Closes a cursor.
#[derive(Debug)]
pub struct ClosePlan {
    pub name: String,
}

/// Deallocates one prepared statement, or all of them.
#[derive(Debug)]
pub struct DeallocatePlan {
    pub name: Option<String>,
}

/// Raises a notice at the requested severity.
#[derive(Debug)]
pub struct RaisePlan {
    pub severity: NoticeSeverity,
}

/// What a write statement does to the rows it touches.
#[derive(Debug)]
pub enum MutationKind {
    Insert,
    Update,
    Delete,
}

/// The encoding of a COPY stream.
#[derive(Debug, Copy, Clone, PartialEq, Eq, Structural)]
pub enum CopyFormat {
    Text,
    Csv,
    Binary,
}

/// A per-index tuning option.
#[derive(Clone, Debug)]
pub enum IndexOption {
    /// The logical compaction window of the index, in milliseconds; `None`
    /// disables logical compaction entirely.
    LogicalCompactionWindow(Option<u64>),
}

} // verus!
