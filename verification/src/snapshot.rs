//! Precomputed world snapshots: their stages, file names and manifest records.
use vstd::prelude::*;
use crate::text::str_equals;
use crate::era::EraKind;

verus! {

/// Version of the snapshot format.
pub const SNAPSHOT_FORMAT_VERSION: u32 = 1;

/// The stages at which a world is snapshotted.
#[derive(Debug, Clone, Copy, PartialEq, Eq, Structural)]
pub enum AlphaSnapshotStage {
    Environment,
    Life,
    Civilization,
    History,
}

/// The name of a stage.
pub open spec fn stage_name(stage: AlphaSnapshotStage) -> Seq<char> {
    match stage {
        AlphaSnapshotStage::Environment => "environment"@,
        AlphaSnapshotStage::Life => "life"@,
        AlphaSnapshotStage::Civilization => "civilization"@,
        AlphaSnapshotStage::History => "history"@,
    }
}

impl AlphaSnapshotStage {
    /// The stage's name.
    pub fn as_str(self) -> (r: &'static str)
        ensures
            r@ == stage_name(self),
    {
        match self {
            AlphaSnapshotStage::Environment => "environment",
            AlphaSnapshotStage::Life => "life",
            AlphaSnapshotStage::Civilization => "civilization",
            AlphaSnapshotStage::History => "history",
        }
    }

    /// The tick at which the stage is captured.
    pub open spec fn target_tick_spec(self) -> u64 {
        match self {
            AlphaSnapshotStage::Environment => 800u64,
            AlphaSnapshotStage::Life => 1300u64,
            AlphaSnapshotStage::Civilization => 1395u64,
            AlphaSnapshotStage::History => 1445u64,
        }
    }

    /// The tick at which the stage is captured.
    pub fn target_tick(self) -> (r: u64)
        ensures
            r == self.target_tick_spec(),
    {
        match self {
            AlphaSnapshotStage::Environment => 800,
            AlphaSnapshotStage::Life => 1300,
            AlphaSnapshotStage::Civilization => 1395,
            AlphaSnapshotStage::History => 1445,
        }
    }
}

/// The era a world is in at a stage.
pub open spec fn stage_era(stage: AlphaSnapshotStage) -> EraKind {
    match stage {
        AlphaSnapshotStage::Environment => EraKind::Environment,
        AlphaSnapshotStage::Life => EraKind::Life,
        AlphaSnapshotStage::Civilization => EraKind::Civilization,
        AlphaSnapshotStage::History => EraKind::History,
    }
}

/// The stages in the order they are reached.
pub open spec fn stage_order() -> Seq<AlphaSnapshotStage> {
    seq![
        AlphaSnapshotStage::Environment,
        AlphaSnapshotStage::Life,
        AlphaSnapshotStage::Civilization,
        AlphaSnapshotStage::History,
    ]
}

/// The stage boundaries, in order: each stage's name, the tick at which it
/// is captured, and the era the world is in then.
pub fn alpha_stage_boundaries() -> (r: Vec<(&'static str, u64, EraKind)>)
    ensures
        r@.len() == 4,
        forall|i: int|
            0 <= i < 4 ==> {
                &&& (#[trigger] r@[i]).0@ == stage_name(stage_order()[i])
                &&& r@[i].1 == stage_order()[i].target_tick_spec()
                &&& r@[i].2 == stage_era(stage_order()[i])
            },
{
    let mut r: Vec<(&'static str, u64, EraKind)> = Vec::new();
    let stages = [
        AlphaSnapshotStage::Environment,
        AlphaSnapshotStage::Life,
        AlphaSnapshotStage::Civilization,
        AlphaSnapshotStage::History,
    ];
    let eras = [EraKind::Environment, EraKind::Life, EraKind::Civilization, EraKind::History];
    let mut i: usize = 0;
    while i < 4
        invariant
            0 <= i <= 4,
            r@.len() == i,
            stages@ == stage_order(),
            forall|j: int| 0 <= j < 4 ==> #[trigger] eras@[j] == stage_era(stage_order()[j]),
            forall|j: int|
                0 <= j < i ==> {
                    &&& (#[trigger] r@[j]).0@ == stage_name(stage_order()[j])
                    &&& r@[j].1 == stage_order()[j].target_tick_spec()
                    &&& r@[j].2 == stage_era(stage_order()[j])
                },
        decreases 4 - i,
    {
        let stage = stages[i];
        r.push((stage.as_str(), stage.target_tick(), eras[i]));
        i += 1;
    }
    r
}

/// Reads a stage from its name; any other text is refused with
/// `unsupported snapshot stage: <text>`.
pub fn parse_stage(value: &str) -> (r: Result<AlphaSnapshotStage, String>)
    ensures
        match r {
            Ok(stage) => stage_name(stage) == value@,
            Err(msg) => msg@ == "unsupported snapshot stage: "@ + value@ && forall|s: AlphaSnapshotStage|
                stage_name(s) != value@,
        },
        forall|s: AlphaSnapshotStage| #[trigger] stage_name(s) == value@ ==> r == Ok::<AlphaSnapshotStage, String>(s),
{
    proof {
        reveal_strlit("environment");
        reveal_strlit("life");
        reveal_strlit("civilization");
        reveal_strlit("history");
    }
    let r = if str_equals(value, "environment") {
        Ok(AlphaSnapshotStage::Environment)
    } else if str_equals(value, "life") {
        Ok(AlphaSnapshotStage::Life)
    } else if str_equals(value, "civilization") {
        Ok(AlphaSnapshotStage::Civilization)
    } else if str_equals(value, "history") {
        Ok(AlphaSnapshotStage::History)
    } else {
        Err(String::from_str("unsupported snapshot stage: ").concat(value))
    };
    proof {
        assert forall|st: AlphaSnapshotStage| #[trigger] stage_name(st) == value@ implies r == Ok::<AlphaSnapshotStage, String>(st) by {
            if let Ok(parsed) = r {
                lemma_stage_names_distinct(st, parsed);
            }
        }
    }
    r
}

/// Distinct stages have distinct names, so a stage's name parses back to
/// the stage itself.
pub proof fn lemma_stage_names_distinct(a: AlphaSnapshotStage, b: AlphaSnapshotStage)
    ensures
        stage_name(a) == stage_name(b) ==> a == b,
{
    reveal_strlit("environment");
    reveal_strlit("life");
    reveal_strlit("civilization");
    reveal_strlit("history");
    if stage_name(a) == stage_name(b) {
        assert(stage_name(a).len() == stage_name(b).len());
    }
}

impl std::str::FromStr for AlphaSnapshotStage {
    type Err = String;

    fn from_str(value: &str) -> (r: Result<Self, Self::Err>)
        ensures
            match r {
                Ok(stage) => stage_name(stage) == value@,
                Err(msg) => msg@ == "unsupported snapshot stage: "@ + value@ && forall|s: AlphaSnapshotStage|
                    stage_name(s) != value@,
            },
            forall|s: AlphaSnapshotStage| #[trigger] stage_name(s) == value@ ==> r == Ok::<AlphaSnapshotStage, String>(s),
    {
        parse_stage(value)
    }
}

/// Directory, relative to the working directory, that holds the canonical snapshots.
pub fn canonical_cache_dir() -> (r: String)
    ensures
        r@ == ".cache/frey/alpha-snapshots"@,
{
    String::from_str(".cache/frey/alpha-snapshots")
}

/// Directory, relative to the working directory, that mirrors the snapshots for the web client.
pub fn mirror_dir() -> (r: String)
    ensures
        r@ == "web/public/.dev-precomputed/alpha"@,
{
    String::from_str("web/public/.dev-precomputed/alpha")
}

/// File name of a stage's binary snapshot: `<stage>.bin`.
pub fn stage_filename(stage: AlphaSnapshotStage) -> (r: String)
    ensures
        r@ == stage_name(stage) + ".bin"@,
{
    String::from_str(stage.as_str()).concat(".bin")
}

/// File name of a stage's summary view: `<stage>.json`.
pub fn stage_view_filename(stage: AlphaSnapshotStage) -> (r: String)
    ensures
        r@ == stage_name(stage) + ".json"@,
{
    String::from_str(stage.as_str()).concat(".json")
}

/// One stage listed in a snapshot manifest.
pub struct PrecomputedWorldSnapshotManifestEntry {
    pub stage: AlphaSnapshotStage,
    pub filename: String,
    pub tick: u64,
    pub era: String,
    pub geology_fingerprint: String,
}

/// The manifest of a world's snapshots.
pub struct PrecomputedWorldSnapshotManifest {
    pub format_version: u32,
    pub seed: String,
    pub mesh_level: u32,
    pub entries: Vec<PrecomputedWorldSnapshotManifestEntry>,
}

/// A summary of one snapshot: identification and entity counts.
pub struct PrecomputedWorldSnapshotView {
    pub format_version: u32,
    pub seed: String,
    pub mesh_level: u32,
    pub stage: AlphaSnapshotStage,
    pub tick: u64,
    pub era: String,
    pub geology_fingerprint: String,
    pub applied_intervention_seq: u64,
    pub cell_count: usize,
    pub polity_count: usize,
    pub settlement_count: usize,
    pub region_count: usize,
    pub polity_relation_count: usize,
    pub polity_group_count: usize,
    pub plate_relation_count: usize,
}

} // verus!
