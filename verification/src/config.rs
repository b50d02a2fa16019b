//! Settings in three layers: what is built in, what the deployment sets, and
//! what an operator overrides. The highest layer that is set counts, and every
//! layer stays visible.
use crate::batch;
use crate::ordered::OrderedMap;
use crate::text;
use vstd::prelude::*;

verus! {

/// Whether a setting is one process's own or shared by all nodes.
#[derive(Debug, Clone, Copy, PartialEq, Eq, Structural)]
pub enum Scope {
    Node,
    Cluster,
}

/// When a change takes effect: at the next use, for work that comes after it,
/// or at the next start.
#[derive(Debug, Clone, Copy, PartialEq, Eq, Structural)]
pub enum Apply {
    Hot,
    Staged,
    Boot,
}

/// Who may change a setting, from the least to the most powerful.
#[derive(Debug, Clone, Copy, PartialEq, Eq, Structural)]
pub enum Role {
    Viewer,
    Operator,
    Admin,
}

/// What values a setting takes.
#[derive(Debug)]
pub enum Kind {
    /// A number within bounds.
    Uint { min: u64, max: u64 },
    /// A number within bounds, or none: an empty text or `off`.
    OptUint { min: u64, max: u64 },
    /// One of some texts.
    Enum(Vec<&'static str>),
}

/// What a `Kind` takes.
pub enum KindView {
    Uint { min: u64, max: u64 },
    OptUint { min: u64, max: u64 },
    Enum(Seq<Seq<char>>),
}

/// The texts of a choice.
pub open spec fn choice_views(v: Seq<&'static str>) -> Seq<Seq<char>> {
    v.map_values(|s: &'static str| s@)
}

impl View for Kind {
    type V = KindView;

    open spec fn view(&self) -> KindView {
        match *self {
            Kind::Uint { min, max } => KindView::Uint { min, max },
            Kind::OptUint { min, max } => KindView::OptUint { min, max },
            Kind::Enum(v) => KindView::Enum(choice_views(v@)),
        }
    }
}

/// Texts in quotes, with commas between them.
pub open spec fn quoted_list(s: Seq<Seq<char>>) -> Seq<char>
    decreases s.len(),
{
    if s.len() == 0 {
        Seq::empty()
    } else if s.len() == 1 {
        text::debug_text(s[0])
    } else {
        quoted_list(s.drop_last()) + ", "@ + text::debug_text(s.last())
    }
}

/// What is wrong with a number that must lie within bounds, if anything.
pub open spec fn range_fault(n: nat, min: u64, max: u64) -> Option<Seq<char>> {
    if n < min || n > max {
        Some(
            text::decimal(n) + " is out of range ["@ + text::decimal(min as nat) + ", "@
                + text::decimal(max as nat) + "]"@,
        )
    } else {
        None
    }
}

/// What is wrong with a value, if anything.
pub open spec fn value_fault(kind: KindView, value: Seq<char>) -> Option<Seq<char>> {
    match kind {
        KindView::Uint { min, max } => match text::unsigned_of(value, u64::MAX as nat) {
            None => Some("`"@ + value + "` is not a non-negative integer"@),
            Some(n) => range_fault(n, min, max),
        },
        KindView::OptUint { min, max } => if value.len() == 0 || value == "off"@ {
            None
        } else {
            match text::unsigned_of(value, u64::MAX as nat) {
                None => Some("`"@ + value + "` is not `off` or a non-negative integer"@),
                Some(n) => range_fault(n, min, max),
            }
        },
        KindView::Enum(allowed) => if allowed.contains(value) {
            None
        } else {
            Some("`"@ + value + "` is not one of ["@ + quoted_list(allowed) + "]"@)
        },
    }
}

fn check_range(n: u64, min: u64, max: u64) -> (r: Result<(), String>)
    ensures
        match (r, range_fault(n as nat, min, max)) {
            (Ok(_), None) => true,
            (Err(m), Some(t)) => m@ == t,
            _ => false,
        },
{
    if n < min || n > max {
        let mut m = text::show(n);
        m.append(" is out of range [");
        m.append(text::show(min).as_str());
        m.append(", ");
        m.append(text::show(max).as_str());
        m.append("]");
        Err(m)
    } else {
        Ok(())
    }
}

fn list_choices(v: &Vec<&'static str>) -> (r: String)
    ensures
        r@ == quoted_list(choice_views(v@)),
{
    let ghost all = choice_views(v@);
    let mut out = String::new();
    let mut i: usize = 0;
    assert(all.take(0) =~= Seq::empty());
    assert(out@ =~= Seq::empty());
    while i < v.len()
        invariant
            i <= v.len(),
            all == choice_views(v@),
            out@ == quoted_list(all.take(i as int)),
        decreases v.len() - i,
    {
        assert(all.take(i + 1).drop_last() =~= all.take(i as int));
        assert(all.take(i + 1).last() == v@[i as int]@);
        if i > 0 {
            out.append(", ");
        }
        out.append(text::quote(v[i]).as_str());
        assert(i == 0 ==> out@ =~= text::debug_text(v@[i as int]@));
        i += 1;
    }
    assert(all.take(all.len() as int) =~= all);
    out
}

impl Kind {
    /// Whether a value is one that the setting takes, or what is wrong with it.
    pub fn check(&self, value: &str) -> (r: Result<(), String>)
        ensures
            match (r, value_fault(self@, value@)) {
                (Ok(_), None) => true,
                (Err(m), Some(t)) => m@ == t,
                _ => false,
            },
    {
        match self {
            Kind::Uint { min, max } => {
                match text::read_unsigned(value, u64::MAX) {
                    None => {
                        let mut m = "`".to_owned();
                        m.append(value);
                        m.append("` is not a non-negative integer");
                        Err(m)
                    },
                    Some(n) => check_range(n, *min, *max),
                }
            },
            Kind::OptUint { min, max } => {
                if value.unicode_len() == 0 || text::same(value, "off") {
                    return Ok(());
                }
                match text::read_unsigned(value, u64::MAX) {
                    None => {
                        let mut m = "`".to_owned();
                        m.append(value);
                        m.append("` is not `off` or a non-negative integer");
                        Err(m)
                    },
                    Some(n) => check_range(n, *min, *max),
                }
            },
            Kind::Enum(allowed) => {
                let ghost all = choice_views(allowed@);
                let mut i: usize = 0;
                while i < allowed.len()
                    invariant
                        i <= allowed.len(),
                        all == choice_views(allowed@),
                        self@ == KindView::Enum(all),
                        forall|j: int| 0 <= j < i ==> all[j] != value@,
                    decreases allowed.len() - i,
                {
                    assert(all[i as int] == allowed@[i as int]@);
                    if text::same(allowed[i], value) {
                        return Ok(());
                    }
                    i += 1;
                }
                let mut m = "`".to_owned();
                m.append(value);
                m.append("` is not one of [");
                m.append(list_choices(allowed).as_str());
                m.append("]");
                Err(m)
            },
        }
    }

    fn allows_explicit_none(&self) -> (r: bool)
        ensures
            r == (self@ is OptUint),
    {
        match self {
            Kind::OptUint { .. } => true,
            _ => false,
        }
    }
}

// ---------------------------------------------------------------- the settings

/// What is known of a setting.
#[derive(Debug)]
pub struct Spec {
    pub key: &'static str,
    pub env: &'static str,
    pub scope: Scope,
    pub apply: Apply,
    pub min_role: Role,
    pub kind: Kind,
    pub default: &'static str,
}

/// What a `Spec` says.
pub struct SpecView {
    pub key: Seq<char>,
    pub env: Seq<char>,
    pub scope: Scope,
    pub apply: Apply,
    pub min_role: Role,
    pub kind: KindView,
    pub default: Seq<char>,
}

impl View for Spec {
    type V = SpecView;

    open spec fn view(&self) -> SpecView {
        SpecView {
            key: self.key@,
            env: self.env@,
            scope: self.scope,
            apply: self.apply,
            min_role: self.min_role,
            kind: self.kind@,
            default: self.default@,
        }
    }
}

/// A setting's description.
pub open spec fn described(
    key: Seq<char>,
    env: Seq<char>,
    scope: Scope,
    apply: Apply,
    min_role: Role,
    kind: KindView,
    default: Seq<char>,
) -> SpecView {
    SpecView { key, env, scope, apply, min_role, kind, default }
}

/// How many settings there are.
pub const SETTINGS: usize = 14;

/// The settings, by their place.
pub open spec fn setting(i: int) -> SpecView {
    if i == 0 {
        described(
            "flush_rows"@,
            "TIMELAKE_FLUSH_ROWS"@,
            Scope::Node,
            Apply::Hot,
            Role::Operator,
            KindView::Uint { min: 1_000, max: 10_000_000 },
            "50000"@,
        )
    } else if i == 1 {
        described(
            "flush_age_secs"@,
            "TIMELAKE_FLUSH_AGE_SECS"@,
            Scope::Node,
            Apply::Hot,
            Role::Operator,
            KindView::Uint { min: 1, max: 3_600 },
            "60"@,
        )
    } else if i == 2 {
        described(
            "wal_max_bytes"@,
            "TIMELAKE_WAL_MAX_BYTES"@,
            Scope::Node,
            Apply::Hot,
            Role::Operator,
            KindView::Uint { min: 1_048_576, max: u64::MAX },
            "2147483648"@,
        )
    } else if i == 3 {
        described(
            "compact_min_files"@,
            "TIMELAKE_COMPACT_MIN_FILES"@,
            Scope::Cluster,
            Apply::Hot,
            Role::Operator,
            KindView::Uint { min: 2, max: 64 },
            "4"@,
        )
    } else if i == 4 {
        described(
            "l0_row_group_rows"@,
            "TIMELAKE_L0_ROW_GROUP_ROWS"@,
            Scope::Node,
            Apply::Hot,
            Role::Operator,
            KindView::OptUint { min: 1_024, max: 10_000_000 },
            ""@,
        )
    } else if i == 5 {
        described(
            "max_concurrent_queries"@,
            "TIMELAKE_MAX_CONCURRENT_QUERIES"@,
            Scope::Node,
            Apply::Staged,
            Role::Admin,
            KindView::Uint { min: 1, max: 64 },
            "6"@,
        )
    } else if i == 6 {
        described(
            "max_concurrent_queries_per_client"@,
            "TIMELAKE_MAX_CONCURRENT_QUERIES_PER_CLIENT"@,
            Scope::Node,
            Apply::Staged,
            Role::Admin,
            KindView::Uint { min: 0, max: 64 },
            "4"@,
        )
    } else if i == 7 {
        described(
            "query_timeout_secs"@,
            "TIMELAKE_QUERY_TIMEOUT_SECS"@,
            Scope::Cluster,
            Apply::Staged,
            Role::Operator,
            KindView::Uint { min: 1, max: 86_400 },
            "600"@,
        )
    } else if i == 8 {
        described(
            "gc_grace_secs"@,
            "TIMELAKE_GC_GRACE_SECS"@,
            Scope::Cluster,
            Apply::Hot,
            Role::Admin,
            KindView::Uint { min: 1, max: 86_400 },
            "900"@,
        )
    } else if i == 9 {
        described(
            "query_mem_bytes"@,
            "TIMELAKE_QUERY_MEM_BYTES"@,
            Scope::Node,
            Apply::Staged,
            Role::Admin,
            KindView::Uint { min: 1_048_576, max: u64::MAX },
            "1073741824"@,
        )
    } else if i == 10 {
        described(
            "repl_timeout_ms"@,
            "TIMELAKE_REPL_TIMEOUT_MS"@,
            Scope::Node,
            Apply::Staged,
            Role::Admin,
            KindView::Uint { min: 1, max: 60_000 },
            "250"@,
        )
    } else if i == 11 {
        described(
            "max_body_bytes"@,
            "TIMELAKE_MAX_BODY_BYTES"@,
            Scope::Node,
            Apply::Boot,
            Role::Admin,
            KindView::Uint { min: 1_048_576, max: u64::MAX },
            "33554432"@,
        )
    } else if i == 12 {
        described(
            "internal_max_concurrent"@,
            "TIMELAKE_INTERNAL_MAX_CONCURRENT"@,
            Scope::Node,
            Apply::Boot,
            Role::Admin,
            KindView::Uint { min: 1, max: 256 },
            "8"@,
        )
    } else {
        described(
            "data_auth"@,
            "TIMELAKE_DATA_AUTH"@,
            Scope::Node,
            Apply::Staged,
            Role::Admin,
            KindView::Enum(seq!["off"@, "optional"@, "required"@]),
            "off"@,
        )
    }
}

/// The setting at a place.
pub fn setting_at(i: usize) -> (r: Spec)
    ensures
        r@ == setting(i as int),
{
    if i == 0 {
        Spec {
            key: "flush_rows",
            env: "TIMELAKE_FLUSH_ROWS",
            scope: Scope::Node,
            apply: Apply::Hot,
            min_role: Role::Operator,
            kind: Kind::Uint { min: 1_000, max: 10_000_000 },
            default: "50000",
        }
    } else if i == 1 {
        Spec {
            key: "flush_age_secs",
            env: "TIMELAKE_FLUSH_AGE_SECS",
            scope: Scope::Node,
            apply: Apply::Hot,
            min_role: Role::Operator,
            kind: Kind::Uint { min: 1, max: 3_600 },
            default: "60",
        }
    } else if i == 2 {
        Spec {
            key: "wal_max_bytes",
            env: "TIMELAKE_WAL_MAX_BYTES",
            scope: Scope::Node,
            apply: Apply::Hot,
            min_role: Role::Operator,
            kind: Kind::Uint { min: 1_048_576, max: u64::MAX },
            default: "2147483648",
        }
    } else if i == 3 {
        Spec {
            key: "compact_min_files",
            env: "TIMELAKE_COMPACT_MIN_FILES",
            scope: Scope::Cluster,
            apply: Apply::Hot,
            min_role: Role::Operator,
            kind: Kind::Uint { min: 2, max: 64 },
            default: "4",
        }
    } else if i == 4 {
        Spec {
            key: "l0_row_group_rows",
            env: "TIMELAKE_L0_ROW_GROUP_ROWS",
            scope: Scope::Node,
            apply: Apply::Hot,
            min_role: Role::Operator,
            kind: Kind::OptUint { min: 1_024, max: 10_000_000 },
            default: "",
        }
    } else if i == 5 {
        Spec {
            key: "max_concurrent_queries",
            env: "TIMELAKE_MAX_CONCURRENT_QUERIES",
            scope: Scope::Node,
            apply: Apply::Staged,
            min_role: Role::Admin,
            kind: Kind::Uint { min: 1, max: 64 },
            default: "6",
        }
    } else if i == 6 {
        Spec {
            key: "max_concurrent_queries_per_client",
            env: "TIMELAKE_MAX_CONCURRENT_QUERIES_PER_CLIENT",
            scope: Scope::Node,
            apply: Apply::Staged,
            min_role: Role::Admin,
            kind: Kind::Uint { min: 0, max: 64 },
            default: "4",
        }
    } else if i == 7 {
        Spec {
            key: "query_timeout_secs",
            env: "TIMELAKE_QUERY_TIMEOUT_SECS",
            scope: Scope::Cluster,
            apply: Apply::Staged,
            min_role: Role::Operator,
            kind: Kind::Uint { min: 1, max: 86_400 },
            default: "600",
        }
    } else if i == 8 {
        Spec {
            key: "gc_grace_secs",
            env: "TIMELAKE_GC_GRACE_SECS",
            scope: Scope::Cluster,
            apply: Apply::Hot,
            min_role: Role::Admin,
            kind: Kind::Uint { min: 1, max: 86_400 },
            default: "900",
        }
    } else if i == 9 {
        Spec {
            key: "query_mem_bytes",
            env: "TIMELAKE_QUERY_MEM_BYTES",
            scope: Scope::Node,
            apply: Apply::Staged,
            min_role: Role::Admin,
            kind: Kind::Uint { min: 1_048_576, max: u64::MAX },
            default: "1073741824",
        }
    } else if i == 10 {
        Spec {
            key: "repl_timeout_ms",
            env: "TIMELAKE_REPL_TIMEOUT_MS",
            scope: Scope::Node,
            apply: Apply::Staged,
            min_role: Role::Admin,
            kind: Kind::Uint { min: 1, max: 60_000 },
            default: "250",
        }
    } else if i == 11 {
        Spec {
            key: "max_body_bytes",
            env: "TIMELAKE_MAX_BODY_BYTES",
            scope: Scope::Node,
            apply: Apply::Boot,
            min_role: Role::Admin,
            kind: Kind::Uint { min: 1_048_576, max: u64::MAX },
            default: "33554432",
        }
    } else if i == 12 {
        Spec {
            key: "internal_max_concurrent",
            env: "TIMELAKE_INTERNAL_MAX_CONCURRENT",
            scope: Scope::Node,
            apply: Apply::Boot,
            min_role: Role::Admin,
            kind: Kind::Uint { min: 1, max: 256 },
            default: "8",
        }
    } else {
        let mut modes: Vec<&'static str> = Vec::new();
        modes.push("off");
        modes.push("optional");
        modes.push("required");
        assert(choice_views(modes@) =~= seq!["off"@, "optional"@, "required"@]);
        Spec {
            key: "data_auth",
            env: "TIMELAKE_DATA_AUTH",
            scope: Scope::Node,
            apply: Apply::Staged,
            min_role: Role::Admin,
            kind: Kind::Enum(modes),
            default: "off",
        }
    }
}

/// The first setting, from a place on, with a key.
pub open spec fn place_from(key: Seq<char>, i: int) -> Option<int>
    decreases SETTINGS - i,
{
    if i < 0 || i >= SETTINGS {
        None
    } else if setting(i).key == key {
        Some(i)
    } else {
        place_from(key, i + 1)
    }
}

/// The setting with a key.
pub open spec fn known(key: Seq<char>) -> Option<SpecView> {
    match place_from(key, 0) {
        Some(i) => Some(setting(i)),
        None => None,
    }
}

/// The setting with a key.
pub fn spec(key: &str) -> (r: Option<Spec>)
    ensures
        match (r, known(key@)) {
            (Some(s), Some(v)) => s@ == v && v.key == key@,
            (None, None) => true,
            _ => false,
        },
{
    let mut i: usize = 0;
    while i < SETTINGS
        invariant
            i <= SETTINGS,
            place_from(key@, 0) == place_from(key@, i as int),
        decreases SETTINGS - i,
    {
        let s = setting_at(i);
        if text::same(s.key, key) {
            return Some(s);
        }
        i += 1;
    }
    None
}

// ---------------------------------------------------------------- the overrides

/// Which layer a value comes from.
#[derive(Debug, Clone, Copy, PartialEq, Eq, Structural)]
pub enum Source {
    Default,
    Property,
    Override,
}

/// The value that counts, and where it comes from.
#[derive(Debug)]
pub struct Effective {
    pub value: String,
    pub source: Source,
}

/// An operator's override. Without a value the setting is off here, whatever
/// the deployment says, which is another thing than to have no override.
#[derive(Debug, Clone)]
pub struct StoredOverride {
    pub value: Option<String>,
    pub revision: u64,
    pub actor: String,
    pub at: String,
    /// What the deployment set when the override was written.
    pub property_at_write: Option<String>,
}

impl StoredOverride {
    /// A copy.
    pub fn copy(&self) -> (r: StoredOverride)
        ensures
            r == *self,
    {
        StoredOverride {
            value: batch::copy_opt(&self.value),
            revision: self.revision,
            actor: self.actor.clone(),
            at: self.at.clone(),
            property_at_write: batch::copy_opt(&self.property_at_write),
        }
    }
}

/// The overrides as they are stored.
#[derive(Debug)]
pub struct SettingsDoc {
    pub schema_version: u32,
    pub revision: u64,
    pub settings: OrderedMap<StoredOverride>,
}

/// The form in which overrides are stored.
pub const SCHEMA_VERSION: u32 = 1;

impl SettingsDoc {
    /// No overrides yet.
    pub fn empty() -> (r: SettingsDoc)
        ensures
            r.schema_version == SCHEMA_VERSION,
            r.revision == 0,
            r.settings.wf(),
            r.settings@ == Map::<Seq<char>, StoredOverride>::empty(),
    {
        SettingsDoc { schema_version: SCHEMA_VERSION, revision: 0, settings: OrderedMap::new() }
    }
}

/// Why a change is refused. Nothing is changed then.
#[derive(Debug, Clone)]
pub enum ConfigError {
    /// There is no such setting.
    Unknown(String),
    /// The setting is the deployment's alone.
    Pinned(String),
    /// The value is none that the setting takes.
    Invalid { key: String, reason: String },
    /// The setting cannot be off.
    NullNotAllowed(String),
    /// The setting would not go with another one.
    CrossField(String),
}

/// Why a change is refused, in words.
pub open spec fn config_error_text(e: ConfigError) -> Seq<char> {
    match e {
        ConfigError::Unknown(k) => "unknown setting `"@ + k@ + "`"@,
        ConfigError::Pinned(k) => "`"@ + k@ + "` is pinned by a system property"@,
        ConfigError::Invalid { key, reason } => "`"@ + key@ + "`: "@ + reason@,
        ConfigError::NullNotAllowed(k) => "`"@ + k@
            + "` cannot be set to null — it has no unset state"@,
        ConfigError::CrossField(m) => m@,
    }
}

impl ConfigError {
    /// Why the change is refused, in words.
    pub fn message(&self) -> (r: String)
        ensures
            r@ == config_error_text(*self),
    {
        match self {
            ConfigError::Unknown(k) => {
                let mut m = "unknown setting `".to_owned();
                m.append(k.as_str());
                m.append("`");
                m
            },
            ConfigError::Pinned(k) => {
                let mut m = "`".to_owned();
                m.append(k.as_str());
                m.append("` is pinned by a system property");
                m
            },
            ConfigError::Invalid { key, reason } => {
                let mut m = "`".to_owned();
                m.append(key.as_str());
                m.append("`: ");
                m.append(reason.as_str());
                m
            },
            ConfigError::NullNotAllowed(k) => {
                let mut m = "`".to_owned();
                m.append(k.as_str());
                m.append("` cannot be set to null — it has no unset state");
                m
            },
            ConfigError::CrossField(m) => m.clone(),
        }
    }
}

/// Why a change did not come about: it was refused, or it could not be stored.
#[derive(Debug, Clone)]
pub enum ConfigSetError {
    Rejected(ConfigError),
    Store(String),
}

impl ConfigSetError {
    /// Why the change did not come about, in words.
    pub fn message(&self) -> (r: String)
        ensures
            r@ == (match *self {
                ConfigSetError::Rejected(e) => config_error_text(e),
                ConfigSetError::Store(m) => m@,
            }),
    {
        match self {
            ConfigSetError::Rejected(e) => e.message(),
            ConfigSetError::Store(m) => m.clone(),
        }
    }
}

// ------------------------------------------------------------------- the layers

/// The settings as they are now: what the deployment sets, what is overridden,
/// and which settings are the deployment's alone.
#[derive(Debug)]
pub struct Layered {
    pub property: OrderedMap<String>,
    pub overrides: OrderedMap<StoredOverride>,
    pub pinned: Vec<String>,
    pub revision: u64,
}

/// The value that counts for a setting that is known.
pub open spec fn value_now(
    property: Map<Seq<char>, String>,
    overrides: Map<Seq<char>, StoredOverride>,
    key: Seq<char>,
) -> Seq<char> {
    if overrides.contains_key(key) {
        match overrides[key].value {
            Some(v) => v@,
            None => Seq::empty(),
        }
    } else if property.contains_key(key) {
        property[key]@
    } else {
        known(key)->Some_0.default
    }
}

/// Where the value that counts comes from.
pub open spec fn source_now(
    property: Map<Seq<char>, String>,
    overrides: Map<Seq<char>, StoredOverride>,
    key: Seq<char>,
) -> Source {
    if overrides.contains_key(key) {
        Source::Override
    } else if property.contains_key(key) {
        Source::Property
    } else {
        Source::Default
    }
}

/// The number that counts for a setting; zero where its value is none.
pub open spec fn number_now(
    property: Map<Seq<char>, String>,
    overrides: Map<Seq<char>, StoredOverride>,
    key: Seq<char>,
) -> nat {
    match text::unsigned_of(value_now(property, overrides, key), u64::MAX as nat) {
        Some(n) => n,
        None => 0,
    }
}

/// Whether files are kept for longer than a query may run that reads them.
pub open spec fn files_outlive_queries(
    property: Map<Seq<char>, String>,
    overrides: Map<Seq<char>, StoredOverride>,
) -> bool {
    number_now(property, overrides, "gc_grace_secs"@) > number_now(
        property,
        overrides,
        "query_timeout_secs"@,
    )
}

/// What is answered where files would not be kept for long enough.
pub open spec fn grace_text(gc: nat, qt: nat) -> Seq<char> {
    "gc_grace_secs ("@ + text::decimal(gc) + "s) must exceed query_timeout_secs ("@
        + text::decimal(qt)
        + "s) — a query's catalog snapshot would outlive its files (the AT-3 compaction-vs-query race)"@
}

/// Whether an override was written when the deployment set another value than
/// it sets now.
pub open spec fn shadows(
    property: Map<Seq<char>, String>,
    key: Seq<char>,
    o: StoredOverride,
) -> bool {
    match o.property_at_write {
        None => false,
        Some(p) => !property.contains_key(key) || property[key]@ != p@,
    }
}

/// The keys, in order, of overrides among the first `n` that shadow a change.
pub open spec fn shadowing(
    property: Map<Seq<char>, String>,
    entries: Seq<(String, StoredOverride)>,
    n: int,
) -> Seq<Seq<char>>
    decreases n,
{
    if n <= 0 {
        Seq::empty()
    } else {
        let p = shadowing(property, entries, n - 1);
        if shadows(property, entries[n - 1].0@, entries[n - 1].1) {
            p.push(entries[n - 1].0@)
        } else {
            p
        }
    }
}

/// What a change of a setting is refused for, in the order in which it is
/// looked at; nothing where it is accepted.
pub enum Refusal {
    Unknown,
    Pinned,
    NullNotAllowed,
    Invalid(Seq<char>),
    CrossField(Seq<char>),
}

/// Whether an error says what a change of a setting is refused for.
pub open spec fn refuses(e: ConfigError, key: Seq<char>, f: Refusal) -> bool {
    match (e, f) {
        (ConfigError::Unknown(k), Refusal::Unknown) => k@ == key,
        (ConfigError::Pinned(k), Refusal::Pinned) => k@ == key,
        (ConfigError::NullNotAllowed(k), Refusal::NullNotAllowed) => k@ == key,
        (ConfigError::Invalid { key: k, reason }, Refusal::Invalid(t)) => k@ == key && reason@ == t,
        (ConfigError::CrossField(m), Refusal::CrossField(t)) => m@ == t,
        _ => false,
    }
}

/// The override that a change writes.
pub open spec fn is_override(
    o: StoredOverride,
    value: Option<Seq<char>>,
    revision: int,
    actor: Seq<char>,
    at: Seq<char>,
    property: Option<Seq<char>>,
) -> bool {
    &&& batch::opt_text(o.value) == value
    &&& o.revision == revision
    &&& o.actor@ == actor
    &&& o.at@ == at
    &&& batch::opt_text(o.property_at_write) == property
}

/// What the deployment sets for a key.
pub open spec fn set_by_deployment(property: Map<Seq<char>, String>, key: Seq<char>) -> Option<
    Seq<char>,
> {
    if property.contains_key(key) {
        Some(property[key]@)
    } else {
        None
    }
}

/// The number that would count for a setting if another were overridden.
pub open spec fn number_then(
    property: Map<Seq<char>, String>,
    overrides: Map<Seq<char>, StoredOverride>,
    changed: Seq<char>,
    value: Option<Seq<char>>,
    key: Seq<char>,
) -> nat {
    if key == changed {
        match value {
            Some(v) => match text::unsigned_of(v, u64::MAX as nat) {
                Some(n) => n,
                None => 0,
            },
            None => 0,
        }
    } else {
        number_now(property, overrides, key)
    }
}

/// What a change is refused for.
pub open spec fn refused(
    l: Layered,
    key: Seq<char>,
    value: Option<Seq<char>>,
) -> Option<Refusal> {
    match known(key) {
        None => Some(Refusal::Unknown),
        Some(s) => if text::texts(l.pinned@).contains(key) {
            Some(Refusal::Pinned)
        } else if value is None && !(s.kind is OptUint) {
            Some(Refusal::NullNotAllowed)
        } else if value is Some && value_fault(s.kind, value->Some_0) is Some {
            Some(Refusal::Invalid(value_fault(s.kind, value->Some_0)->Some_0))
        } else {
            let gc = number_then(l.property@, l.overrides@, key, value, "gc_grace_secs"@);
            let qt = number_then(l.property@, l.overrides@, key, value, "query_timeout_secs"@);
            if gc <= qt {
                Some(Refusal::CrossField(grace_text(gc, qt)))
            } else {
                None
            }
        },
    }
}

/// What is known of a setting and its layers.
#[derive(Debug)]
pub struct Provenance {
    pub spec: Spec,
    pub effective: Effective,
    pub property: Option<String>,
    pub stored: Option<StoredOverride>,
    pub pinned: bool,
    /// What the deployment sets now, and what it set when the override was
    /// written, where these differ.
    pub diverged: Option<(Option<String>, String)>,
}

proof fn lemma_settings_known()
    ensures
        known("gc_grace_secs"@) is Some,
        known("query_timeout_secs"@) is Some,
{
    reveal_with_fuel(place_from, 16);
    assert(setting(7).key == "query_timeout_secs"@);
    assert(setting(8).key == "gc_grace_secs"@);
}

proof fn lemma_every_setting_is_known(i: int, from: int)
    requires
        0 <= from <= i < SETTINGS,
    ensures
        place_from(setting(i).key, from) is Some,
    decreases i - from,
{
    if from < i {
        lemma_every_setting_is_known(i, from + 1);
    }
}

impl Layered {
    /// Both maps are in order.
    pub open spec fn wf(self) -> bool {
        &&& self.property.wf()
        &&& self.overrides.wf()
    }

    /// Settings without overrides.
    pub fn new(property: OrderedMap<String>, pinned: Vec<String>) -> (r: Layered)
        requires
            property.wf(),
        ensures
            r.wf(),
            r.property == property,
            r.pinned == pinned,
            r.overrides@ == Map::<Seq<char>, StoredOverride>::empty(),
            r.revision == 0,
    {
        Layered { property, overrides: OrderedMap::new(), pinned, revision: 0 }
    }

    /// Settings with the overrides that were stored.
    pub fn load(property: OrderedMap<String>, pinned: Vec<String>, doc: SettingsDoc) -> (r: Layered)
        requires
            property.wf(),
            doc.settings.wf(),
        ensures
            r.wf(),
            r.property == property,
            r.pinned == pinned,
            r.overrides == doc.settings,
            r.revision == doc.revision,
    {
        Layered { property, overrides: doc.settings, pinned, revision: doc.revision }
    }

    /// How often overrides were changed.
    pub fn revision(&self) -> (r: u64)
        ensures
            r == self.revision,
    {
        self.revision
    }

    /// Whether a setting is the deployment's alone.
    pub fn is_pinned(&self, key: &str) -> (r: bool)
        ensures
            r == text::texts(self.pinned@).contains(key@),
    {
        text::contains_text(&self.pinned, key)
    }

    /// The value that counts for a setting; nothing where there is no such
    /// setting.
    pub fn effective(&self, key: &str) -> (r: Option<Effective>)
        requires
            self.wf(),
        ensures
            r is Some <==> known(key@) is Some,
            r matches Some(e) ==> e.value@ == value_now(self.property@, self.overrides@, key@)
                && e.source == source_now(self.property@, self.overrides@, key@),
    {
        match spec(key) {
            None => None,
            Some(s) => {
                if let Some(o) = self.overrides.get(key) {
                    let value = match &o.value {
                        Some(v) => v.clone(),
                        None => {
                            let none = String::new();
                            assert(none@ =~= Seq::empty());
                            none
                        },
                    };
                    return Some(Effective { value, source: Source::Override });
                }
                if let Some(p) = self.property.get(key) {
                    return Some(Effective { value: p.clone(), source: Source::Property });
                }
                Some(Effective { value: s.default.to_owned(), source: Source::Default })
            },
        }
    }

    /// The values that count, of all settings by their keys.
    pub fn effective_all(&self) -> (r: OrderedMap<String>)
        requires
            self.wf(),
        ensures
            r.wf(),
            forall|k: Seq<char>| #[trigger] r@.contains_key(k) <==> known(k) is Some,
            forall|k: Seq<char>|
                r@.contains_key(k) ==> (#[trigger] r@[k])@ == value_now(
                    self.property@,
                    self.overrides@,
                    k,
                ),
    {
        let mut out: OrderedMap<String> = OrderedMap::new();
        let mut i: usize = 0;
        while i < SETTINGS
            invariant
                i <= SETTINGS,
                self.wf(),
                out.wf(),
                forall|k: Seq<char>| #[trigger]
                    out@.contains_key(k) <==> exists|j: int|
                        0 <= j < i && (#[trigger] setting(j)).key == k,
                forall|k: Seq<char>|
                    out@.contains_key(k) ==> (#[trigger] out@[k])@ == value_now(
                        self.property@,
                        self.overrides@,
                        k,
                    ),
            decreases SETTINGS - i,
        {
            let ghost was = out@;
            let s = setting_at(i);
            proof {
                lemma_key_known(i as int);
            }
            match self.effective(s.key) {
                Some(e) => {
                    out.insert(s.key.to_owned(), e.value);
                },
                None => {
                    assert(false);
                },
            }
            proof {
                let key = setting(i as int).key;
                assert forall|k: Seq<char>| #[trigger] out@.contains_key(k) <==> exists|j: int|
                    0 <= j < i + 1 && (#[trigger] setting(j)).key == k by {
                    assert(out@.contains_key(k) <==> was.contains_key(k) || k == key);
                    if was.contains_key(k) {
                        let j = choose|j: int| 0 <= j < i && (#[trigger] setting(j)).key == k;
                        assert(setting(j).key == k);
                    }
                }
            }
            i += 1;
        }
        proof {
            assert forall|k: Seq<char>| #[trigger] out@.contains_key(k) <==> known(k) is Some by {
                if out@.contains_key(k) {
                    let j = choose|j: int| 0 <= j < SETTINGS && (#[trigger] setting(j)).key == k;
                    lemma_key_known(j);
                }
                if known(k) is Some {
                    lemma_placed(k, 0);
                }
            }
        }
        out
    }

    fn shadowed(&self, key: &str, o: &StoredOverride) -> (r: bool)
        requires
            self.wf(),
        ensures
            r == shadows(self.property@, key@, *o),
    {
        match &o.property_at_write {
            None => false,
            Some(p) => {
                match self.property.get(key) {
                    None => true,
                    Some(now) => !text::same(now.as_str(), p.as_str()),
                }
            },
        }
    }

    /// The settings of which an override shadows a change of the deployment.
    pub fn divergent(&self) -> (r: Vec<String>)
        requires
            self.wf(),
        ensures
            text::texts(r@) == shadowing(
                self.property@,
                self.overrides.entries@,
                self.overrides.entries@.len() as int,
            ),
    {
        let mut out: Vec<String> = Vec::new();
        let mut i: usize = 0;
        assert(text::texts(out@) =~= Seq::empty());
        while i < self.overrides.entries.len()
            invariant
                i <= self.overrides.entries.len(),
                self.wf(),
                text::texts(out@) == shadowing(
                    self.property@,
                    self.overrides.entries@,
                    i as int,
                ),
            decreases self.overrides.entries.len() - i,
        {
            let ghost done = text::texts(out@);
            let e = &self.overrides.entries[i];
            if self.shadowed(e.0.as_str(), &e.1) {
                out.push(e.0.clone());
                assert(text::texts(out@) =~= done.push(e.0@));
            }
            i += 1;
        }
        out
    }

    /// Whether this is what is known of a setting.
    pub open spec fn explains(self, p: Provenance, s: SpecView) -> bool {
        let key = s.key;
        &&& p.spec@ == s
        &&& p.effective.value@ == value_now(self.property@, self.overrides@, key)
        &&& p.effective.source == source_now(self.property@, self.overrides@, key)
        &&& batch::opt_text(p.property) == set_by_deployment(self.property@, key)
        &&& p.stored == (if self.overrides@.contains_key(key) {
            Some(self.overrides@[key])
        } else {
            None
        })
        &&& p.pinned == text::texts(self.pinned@).contains(key)
        &&& p.diverged is Some <==> self.overrides@.contains_key(key) && shadows(
            self.property@,
            key,
            self.overrides@[key],
        )
        &&& p.diverged matches Some((now, then)) ==> batch::opt_text(now) == set_by_deployment(
            self.property@,
            key,
        ) && Some(then@) == batch::opt_text(self.overrides@[key].property_at_write)
    }

    /// What is known of a setting; nothing where there is no such setting.
    pub fn provenance(&self, key: &str) -> (r: Option<Provenance>)
        requires
            self.wf(),
        ensures
            match (r, known(key@)) {
                (Some(p), Some(s)) => s.key == key@ && self.explains(p, s),
                (None, None) => true,
                _ => false,
            },
    {
        match spec(key) {
            None => None,
            Some(s) => {
                let effective = match self.effective(key) {
                    Some(e) => e,
                    None => {
                        assert(false);
                        return None;
                    },
                };
                let property = match self.property.get(key) {
                    Some(p) => Some(p.clone()),
                    None => None,
                };
                let mut diverged: Option<(Option<String>, String)> = None;
                let stored = match self.overrides.get(key) {
                    Some(o) => {
                        if self.shadowed(key, o) {
                            if let Some(then) = &o.property_at_write {
                                diverged = Some((batch::copy_opt(&property), then.clone()));
                            }
                        }
                        Some(o.copy())
                    },
                    None => None,
                };
                Some(
                    Provenance {
                        spec: s,
                        effective,
                        property,
                        stored,
                        pinned: self.is_pinned(key),
                        diverged,
                    },
                )
            },
        }
    }

    fn number_if(&self, changed: &str, value: &Option<String>, key: &str) -> (r: u64)
        requires
            self.wf(),
            known(key@) is Some,
        ensures
            r == number_then(
                self.property@,
                self.overrides@,
                changed@,
                batch::opt_text(*value),
                key@,
            ),
    {
        if text::same(key, changed) {
            match value {
                Some(v) => match text::read_unsigned(v.as_str(), u64::MAX) {
                    Some(n) => n,
                    None => 0,
                },
                None => 0,
            }
        } else {
            match self.effective(key) {
                Some(e) => match text::read_unsigned(e.value.as_str(), u64::MAX) {
                    Some(n) => n,
                    None => 0,
                },
                None => 0,
            }
        }
    }

    fn validate_cross_field(&self, changed: &str, value: &Option<String>) -> (r: Result<
        (),
        ConfigError,
    >)
        requires
            self.wf(),
        ensures
            ({
                let v = batch::opt_text(*value);
                let gc = number_then(
                    self.property@,
                    self.overrides@,
                    changed@,
                    v,
                    "gc_grace_secs"@,
                );
                let qt = number_then(
                    self.property@,
                    self.overrides@,
                    changed@,
                    v,
                    "query_timeout_secs"@,
                );
                match r {
                    Ok(_) => gc > qt,
                    Err(ConfigError::CrossField(m)) => gc <= qt && m@ == grace_text(gc, qt),
                    _ => false,
                }
            }),
    {
        proof {
            lemma_settings_known();
        }
        let gc: u64 = self.number_if(changed, value, "gc_grace_secs");
        let qt: u64 = self.number_if(changed, value, "query_timeout_secs");
        if gc <= qt {
            let mut m = "gc_grace_secs (".to_owned();
            m.append(text::show(gc).as_str());
            m.append("s) must exceed query_timeout_secs (");
            m.append(text::show(qt).as_str());
            m.append(
                "s) — a query's catalog snapshot would outlive its files (the AT-3 compaction-vs-query race)",
            );
            return Err(ConfigError::CrossField(m));
        }
        Ok(())
    }

    /// Whether this is what is known of the first settings, in their order.
    pub open spec fn explains_first(self, all: Seq<Provenance>) -> bool {
        forall|i: int|
            0 <= i < all.len() ==> self.explains(
                #[trigger] all[i],
                known(setting(i).key)->Some_0,
            )
    }

    /// What is known of every setting, in their order.
    pub fn provenance_all(&self) -> (r: Vec<Provenance>)
        requires
            self.wf(),
        ensures
            r@.len() == SETTINGS,
            self.explains_first(r@),
    {
        let mut out: Vec<Provenance> = Vec::new();
        let mut i: usize = 0;
        while i < SETTINGS
            invariant
                self.wf(),
                i <= SETTINGS,
                out@.len() == i,
                self.explains_first(out@),
            decreases SETTINGS - i,
        {
            let s = setting_at(i);
            proof {
                lemma_every_setting_is_known(i as int, 0);
            }
            let ghost before = out@;
            match self.provenance(s.key) {
                Some(p) => {
                    assert(self.explains(p, known(setting(i as int).key)->Some_0));
                    out.push(p);
                    assert forall|j: int| 0 <= j < out@.len() implies self.explains(
                        #[trigger] out@[j],
                        known(setting(j).key)->Some_0,
                    ) by {
                        if j < before.len() {
                            assert(out@[j] == before[j]);
                        }
                    }
                },
                None => {
                    assert(false);
                },
            }
            i += 1;
        }
        out
    }

    /// Overrides a setting, with a value or with none. The settings as they
    /// would be are looked at as a whole, and nothing is changed where they
    /// would not do.
    pub fn set(&mut self, key: &str, value: Option<String>, actor: &str, at: &str) -> (r: Result<
        u64,
        ConfigError,
    >)
        requires
            old(self).wf(),
            refused(*old(self), key@, batch::opt_text(value)) is None ==> old(self).revision
                < u64::MAX,
        ensures
            final(self).wf(),
            was_set(*old(self), *final(self), key@, batch::opt_text(value), actor@, at@, r),
    {
        let s = match spec(key) {
            None => {
                return Err(ConfigError::Unknown(key.to_owned()));
            },
            Some(s) => s,
        };
        if self.is_pinned(key) {
            return Err(ConfigError::Pinned(key.to_owned()));
        }
        match &value {
            None => {
                if !s.kind.allows_explicit_none() {
                    return Err(ConfigError::NullNotAllowed(key.to_owned()));
                }
            },
            Some(v) => {
                if let Err(reason) = s.kind.check(v.as_str()) {
                    return Err(ConfigError::Invalid { key: key.to_owned(), reason });
                }
            },
        }
        match self.validate_cross_field(key, &value) {
            Err(e) => {
                return Err(e);
            },
            Ok(_) => {},
        }
        let property_at_write = match self.property.get(key) {
            Some(p) => Some(p.clone()),
            None => None,
        };
        let next: u64 = self.revision + 1;
        let o = StoredOverride {
            value,
            revision: next,
            actor: actor.to_owned(),
            at: at.to_owned(),
            property_at_write,
        };
        self.overrides.insert(key.to_owned(), o);
        self.revision = next;
        assert(self.overrides@.remove(key@) =~= old(self).overrides@.remove(key@));
        Ok(next)
    }

    /// Takes an override back, so that what the deployment sets, or else what
    /// is built in, counts again. Says whether there was one.
    pub fn revert(&mut self, key: &str) -> (r: Result<bool, ConfigError>)
        requires
            old(self).wf(),
            known(key@) is Some && !text::texts(old(self).pinned@).contains(key@) && old(
                self,
            ).overrides@.contains_key(key@) ==> old(self).revision < u64::MAX,
        ensures
            final(self).wf(),
            was_reverted(*old(self), *final(self), key@, r),
    {
        if spec(key).is_none() {
            return Err(ConfigError::Unknown(key.to_owned()));
        }
        if self.is_pinned(key) {
            return Err(ConfigError::Pinned(key.to_owned()));
        }
        let removed: bool = self.overrides.remove(key);
        if removed {
            self.revision = self.revision + 1;
        }
        Ok(removed)
    }

    /// The overrides as they are to be stored.
    pub fn to_doc(&self) -> (r: SettingsDoc)
        requires
            self.wf(),
        ensures
            r.schema_version == SCHEMA_VERSION,
            r.revision == self.revision,
            r.settings.wf(),
            r.settings.entries@ == self.overrides.entries@,
            r.settings@ == self.overrides@,
    {
        let mut entries: Vec<(String, StoredOverride)> = Vec::new();
        let mut i: usize = 0;
        while i < self.overrides.entries.len()
            invariant
                i <= self.overrides.entries.len(),
                entries@ == self.overrides.entries@.take(i as int),
            decreases self.overrides.entries.len() - i,
        {
            let e = &self.overrides.entries[i];
            entries.push((e.0.clone(), e.1.copy()));
            assert(entries@ =~= self.overrides.entries@.take(i + 1));
            i += 1;
        }
        assert(entries@ =~= self.overrides.entries@);
        SettingsDoc {
            schema_version: SCHEMA_VERSION,
            revision: self.revision,
            settings: OrderedMap { entries },
        }
    }
}

proof fn lemma_key_known(i: int)
    requires
        0 <= i < SETTINGS,
    ensures
        known(setting(i).key) is Some,
{
    lemma_found(setting(i).key, i, 0);
}

proof fn lemma_placed(key: Seq<char>, from: int)
    requires
        0 <= from,
        place_from(key, from) is Some,
    ensures
        exists|j: int| 0 <= j < SETTINGS && (#[trigger] setting(j)).key == key,
    decreases SETTINGS - from,
{
    if from < SETTINGS && setting(from).key != key {
        lemma_placed(key, from + 1);
    }
}

proof fn lemma_found(key: Seq<char>, i: int, from: int)
    requires
        0 <= from <= i < SETTINGS,
        setting(i).key == key,
    ensures
        place_from(key, from) is Some,
    decreases i - from,
{
    if setting(from).key != key {
        lemma_found(key, i, from + 1);
    }
}

// ------------------------------------------------------------------------- laws

/// Whether a setting was overridden, or refused and nothing changed.
pub open spec fn was_set(
    before: Layered,
    after: Layered,
    key: Seq<char>,
    value: Option<Seq<char>>,
    actor: Seq<char>,
    at: Seq<char>,
    r: Result<u64, ConfigError>,
) -> bool {
    match (r, refused(before, key, value)) {
        (Ok(n), None) => {
            &&& n == before.revision + 1
            &&& after.revision == n
            &&& after.property == before.property
            &&& after.pinned == before.pinned
            &&& after.overrides@.contains_key(key)
            &&& is_override(
                after.overrides@[key],
                value,
                n as int,
                actor,
                at,
                set_by_deployment(before.property@, key),
            )
            &&& after.overrides@.remove(key) == before.overrides@.remove(key)
        },
        (Err(e), Some(f)) => refuses(e, key, f) && after == before,
        _ => false,
    }
}

/// Whether an override was taken back; nothing changes where there was none,
/// or where it may not be.
pub open spec fn was_reverted(
    before: Layered,
    after: Layered,
    key: Seq<char>,
    r: Result<bool, ConfigError>,
) -> bool {
    match r {
        Ok(removed) => {
            &&& known(key) is Some
            &&& !text::texts(before.pinned@).contains(key)
            &&& removed == before.overrides@.contains_key(key)
            &&& if removed {
                &&& after.overrides@ == before.overrides@.remove(key)
                &&& after.revision == before.revision + 1
                &&& after.property == before.property
                &&& after.pinned == before.pinned
            } else {
                after == before
            }
        },
        Err(ConfigError::Unknown(k)) => k@ == key && known(key) is None && after == before,
        Err(ConfigError::Pinned(k)) => {
            &&& k@ == key
            &&& known(key) is Some
            &&& text::texts(before.pinned@).contains(key)
            &&& after == before
        },
        Err(_) => false,
    }
}

/// A change that is refused applies nothing: the document to store, the
/// revision, the value and the source of every setting, and what the overrides
/// shadow are as before.
pub proof fn a_refused_change_applies_nothing(
    before: Layered,
    after: Layered,
    key: Seq<char>,
    value: Option<Seq<char>>,
    actor: Seq<char>,
    at: Seq<char>,
    r: Result<u64, ConfigError>,
    other: Seq<char>,
)
    requires
        was_set(before, after, key, value, actor, at, r),
        r is Err,
    ensures
        after.revision == before.revision,
        after.overrides.entries@ == before.overrides.entries@,
        value_now(after.property@, after.overrides@, other) == value_now(
            before.property@,
            before.overrides@,
            other,
        ),
        source_now(after.property@, after.overrides@, other) == source_now(
            before.property@,
            before.overrides@,
            other,
        ),
        shadowing(
            after.property@,
            after.overrides.entries@,
            after.overrides.entries@.len() as int,
        ) == shadowing(
            before.property@,
            before.overrides.entries@,
            before.overrides.entries@.len() as int,
        ),
{
}

/// An override is taken back once: a second time there is none, and nothing
/// changes.
pub proof fn reverting_twice_changes_nothing(
    before: Layered,
    between: Layered,
    after: Layered,
    key: Seq<char>,
    first: bool,
    second: Result<bool, ConfigError>,
)
    requires
        was_reverted(before, between, key, Ok(first)),
        was_reverted(between, after, key, second),
    ensures
        second == Ok::<bool, ConfigError>(false),
        after == between,
{
}

/// An override that is taken back leaves what the deployment sets, and only
/// where it sets nothing what is built in.
pub proof fn reverting_falls_back_to_the_property(
    property: Map<Seq<char>, String>,
    overrides: Map<Seq<char>, StoredOverride>,
    key: Seq<char>,
)
    ensures
        property.contains_key(key) ==> value_now(property, overrides.remove(key), key)
            == property[key]@ && source_now(property, overrides.remove(key), key)
            == Source::Property,
        !property.contains_key(key) ==> value_now(property, overrides.remove(key), key) == known(
            key,
        )->Some_0.default && source_now(property, overrides.remove(key), key) == Source::Default,
{
}

/// A change of one setting leaves every other setting as it is.
pub proof fn other_settings_stay(
    property: Map<Seq<char>, String>,
    before: Map<Seq<char>, StoredOverride>,
    after: Map<Seq<char>, StoredOverride>,
    changed: Seq<char>,
    key: Seq<char>,
)
    requires
        after.remove(changed) == before.remove(changed),
        key != changed,
    ensures
        value_now(property, after, key) == value_now(property, before, key),
        source_now(property, after, key) == source_now(property, before, key),
{
    assert(after.remove(changed).contains_key(key) == after.contains_key(key));
    assert(before.remove(changed).contains_key(key) == before.contains_key(key));
    if after.contains_key(key) {
        assert(after.remove(changed)[key] == after[key]);
        assert(before.remove(changed)[key] == before[key]);
    }
}

/// However settings are overridden, after every change that is accepted files
/// are kept for longer than a query may run.
pub proof fn accepted_changes_keep_files_for_queries(
    l: Layered,
    key: Seq<char>,
    value: Option<Seq<char>>,
    after: Map<Seq<char>, StoredOverride>,
)
    requires
        refused(l, key, value) is None,
        after.contains_key(key),
        batch::opt_text(after[key].value) == value,
        after.remove(key) == l.overrides@.remove(key),
    ensures
        files_outlive_queries(l.property@, after),
{
    reveal_strlit("gc_grace_secs");
    reveal_strlit("query_timeout_secs");
    let gc = "gc_grace_secs"@;
    let qt = "query_timeout_secs"@;
    if key != gc {
        other_settings_stay(l.property@, l.overrides@, after, key, gc);
    }
    if key != qt {
        other_settings_stay(l.property@, l.overrides@, after, key, qt);
    }
    lemma_empty_is_no_number();
}

proof fn lemma_empty_is_no_number()
    ensures
        text::unsigned_of(Seq::empty(), u64::MAX as nat) is None,
{
}

/// Overrides that are stored and loaded again are the ones that were stored.
pub proof fn documents_load_as_they_were_stored(l: Layered, doc: SettingsDoc, again: Layered)
    requires
        doc.settings@ == l.overrides@,
        doc.revision == l.revision,
        again.overrides == doc.settings,
        again.property@ == l.property@,
        again.revision == doc.revision,
    ensures
        again.revision == l.revision,
        forall|key: Seq<char>| #[trigger]
            value_now(again.property@, again.overrides@, key) == value_now(
                l.property@,
                l.overrides@,
                key,
            ),
        forall|key: Seq<char>| #[trigger]
            source_now(again.property@, again.overrides@, key) == source_now(
                l.property@,
                l.overrides@,
                key,
            ),
{
}

/// A number is accepted for a setting exactly if it is within the setting's
/// range; a setting that can be off is off by that word or by nothing; a choice
/// is accepted exactly if it is offered.
pub proof fn a_value_is_accepted_within_its_range(
    n: u64,
    min: u64,
    max: u64,
    offered: Seq<Seq<char>>,
    choice: Seq<char>,
)
    ensures
        value_fault(KindView::Uint { min, max }, text::decimal(n as nat)) is None <==> min <= n
            <= max,
        value_fault(KindView::OptUint { min, max }, text::decimal(n as nat)) is None <==> min <= n
            <= max,
        value_fault(KindView::OptUint { min, max }, "off"@) is None,
        value_fault(KindView::OptUint { min, max }, Seq::empty()) is None,
        value_fault(KindView::Uint { min, max }, Seq::empty()) is Some,
        value_fault(KindView::Enum(offered), choice) is None <==> exists|i: int|
            0 <= i < offered.len() && #[trigger] offered[i] == choice,
{
    text::unsigned_numerals_read_back(n as nat, u64::MAX as nat);
    text::decimal_spells(n as nat);
    assert(text::is_digit(text::decimal(n as nat)[0]));
    reveal_strlit("off");
    assert("off"@[0] == 'o');
}

/// The value of a setting is the override's where there is one, else the
/// deployment's where that sets it, else the default; and it says which it is.
pub proof fn the_nearest_layer_decides(
    property: Map<Seq<char>, String>,
    overrides: Map<Seq<char>, StoredOverride>,
    key: Seq<char>,
    s: SpecView,
)
    requires
        known(key) == Some(s),
    ensures
        overrides.contains_key(key) ==> source_now(property, overrides, key) == Source::Override
            && match overrides[key].value {
            Some(v) => value_now(property, overrides, key) == v@,
            None => value_now(property, overrides, key).len() == 0,
        },
        !overrides.contains_key(key) && property.contains_key(key) ==> source_now(
            property,
            overrides,
            key,
        ) == Source::Property && value_now(property, overrides, key) == property[key]@,
        !overrides.contains_key(key) && !property.contains_key(key) ==> source_now(
            property,
            overrides,
            key,
        ) == Source::Default && value_now(property, overrides, key) == s.default,
{
}

/// An override shadows the deployment exactly if the deployment set the setting
/// when the override was made, and sets it otherwise or not at all now.
pub proof fn an_override_shadows_what_changed_under_it(
    property: Map<Seq<char>, String>,
    key: Seq<char>,
    o: StoredOverride,
)
    ensures
        o.property_at_write is None ==> !shadows(property, key, o),
        o.property_at_write matches Some(p) ==> (shadows(property, key, o) <==> !(
        property.contains_key(key) && property[key]@ == p@)),
{
}

/// The settings and their ranges: for each that is a number, exactly the numbers
/// from the least to the greatest are accepted, and for the mode of the tokens
/// its three words.
pub proof fn each_setting_has_its_range(n: u64, mode: Seq<char>)
    ensures
        setting(0).key == "flush_rows"@,
        value_fault(setting(0).kind, text::decimal(n as nat)) is None <==> 1_000 <= n <= 10_000_000,
        setting(1).key == "flush_age_secs"@,
        value_fault(setting(1).kind, text::decimal(n as nat)) is None <==> 1 <= n <= 3_600,
        setting(2).key == "wal_max_bytes"@,
        value_fault(setting(2).kind, text::decimal(n as nat)) is None <==> 1_048_576 <= n,
        setting(3).key == "compact_min_files"@,
        value_fault(setting(3).kind, text::decimal(n as nat)) is None <==> 2 <= n <= 64,
        setting(4).key == "l0_row_group_rows"@,
        value_fault(setting(4).kind, text::decimal(n as nat)) is None <==> 1_024 <= n <= 10_000_000,
        setting(5).key == "max_concurrent_queries"@,
        value_fault(setting(5).kind, text::decimal(n as nat)) is None <==> 1 <= n <= 64,
        setting(6).key == "max_concurrent_queries_per_client"@,
        value_fault(setting(6).kind, text::decimal(n as nat)) is None <==> n <= 64,
        setting(7).key == "query_timeout_secs"@,
        value_fault(setting(7).kind, text::decimal(n as nat)) is None <==> 1 <= n <= 86_400,
        setting(8).key == "gc_grace_secs"@,
        value_fault(setting(8).kind, text::decimal(n as nat)) is None <==> 1 <= n <= 86_400,
        setting(9).key == "query_mem_bytes"@,
        value_fault(setting(9).kind, text::decimal(n as nat)) is None <==> 1_048_576 <= n,
        setting(10).key == "repl_timeout_ms"@,
        value_fault(setting(10).kind, text::decimal(n as nat)) is None <==> 1 <= n <= 60_000,
        setting(11).key == "max_body_bytes"@,
        value_fault(setting(11).kind, text::decimal(n as nat)) is None <==> 1_048_576 <= n,
        setting(12).key == "internal_max_concurrent"@,
        value_fault(setting(12).kind, text::decimal(n as nat)) is None <==> 1 <= n <= 256,
        setting(13).key == "data_auth"@,
        value_fault(setting(13).kind, mode) is None <==> mode == "off"@ || mode == "optional"@
            || mode == "required"@,
{
    text::unsigned_numerals_read_back(n as nat, u64::MAX as nat);
    text::decimal_spells(n as nat);
    assert(text::is_digit(text::decimal(n as nat)[0]));
    reveal_strlit("off");
    assert("off"@[0] == 'o');
    let modes = seq!["off"@, "optional"@, "required"@];
    assert(modes[0] == "off"@ && modes[1] == "optional"@ && modes[2] == "required"@);
}

/// A change of a setting is refused exactly if the setting is not known or is
/// pinned, if it is set to nothing and cannot be off, if its value is not
/// accepted, or if by it files would not outlive the queries that read them.
pub proof fn a_change_is_refused_only_for_a_reason(
    l: Layered,
    key: Seq<char>,
    value: Option<Seq<char>>,
    s: SpecView,
)
    ensures
        known(key) is None ==> refused(l, key, value) == Some(Refusal::Unknown),
        known(key) == Some(s) ==> (refused(l, key, value) is None <==> {
            &&& !text::texts(l.pinned@).contains(key)
            &&& value is None ==> s.kind is OptUint
            &&& value matches Some(v) ==> value_fault(s.kind, v) is None
            &&& number_then(l.property@, l.overrides@, key, value, "gc_grace_secs"@)
                > number_then(l.property@, l.overrides@, key, value, "query_timeout_secs"@)
        }),
{
}

/// An override says what the value became, by which change, who made it and when,
/// and what the deployment said at that time.
pub proof fn an_override_says_who_wrote_it(
    o: StoredOverride,
    value: Option<Seq<char>>,
    revision: int,
    actor: Seq<char>,
    at: Seq<char>,
    property: Option<Seq<char>>,
)
    requires
        is_override(o, value, revision, actor, at, property),
    ensures
        value is None ==> o.value is None,
        value matches Some(v) ==> o.value is Some && o.value->Some_0@ == v,
        o.revision == revision,
        o.actor@ == actor,
        o.at@ == at,
        property is None ==> o.property_at_write is None,
        property matches Some(p) ==> o.property_at_write is Some && o.property_at_write->Some_0@
            == p,
{
}

} // verus!
