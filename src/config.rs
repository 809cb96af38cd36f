use vstd::prelude::*;
use vstd::string::StringSliceAdditionalSpecFns;
use vstd::utf8::encode_utf8;
use crate::error::TenantError;

verus! {

/// Server-wide defaults of the per-tenant knobs. Durations are in milliseconds.
#[derive(Clone, Copy, Debug, PartialEq, Eq, Structural)]
pub struct TenantConf {
    /// Bytes of WAL after which in-memory data is flushed.
    pub checkpoint_distance: u64,
    pub checkpoint_timeout: u64,
    pub compaction_target_size: u64,
    pub compaction_period: u64,
    pub compaction_threshold: usize,
    /// LSN bytes retained behind the last record.
    pub gc_horizon: u64,
    pub gc_period: u64,
    pub image_creation_threshold: usize,
    pub pitr_interval: u64,
    pub walreceiver_connect_timeout: u64,
    pub lagging_wal_timeout: u64,
    pub max_lsn_wal_lag: u64,
}

/// Per-tenant overrides: each knob unset falls back to the server-wide default.
#[derive(Clone, Copy, Debug, PartialEq, Eq, Structural)]
pub struct TenantConfOpt {
    pub checkpoint_distance: Option<u64>,
    pub checkpoint_timeout: Option<u64>,
    pub compaction_target_size: Option<u64>,
    pub compaction_period: Option<u64>,
    pub compaction_threshold: Option<usize>,
    pub gc_horizon: Option<u64>,
    pub gc_period: Option<u64>,
    pub image_creation_threshold: Option<usize>,
    pub pitr_interval: Option<u64>,
    pub walreceiver_connect_timeout: Option<u64>,
    pub lagging_wal_timeout: Option<u64>,
    pub max_lsn_wal_lag: Option<u64>,
}

/// `over` where set, else `base`.
pub open spec fn override_with<T>(base: Option<T>, over: Option<T>) -> Option<T> {
    match over {
        Some(v) => Some(v),
        None => base,
    }
}

/// The value of a knob: the override if set, else the default.
pub open spec fn resolve<T>(over: Option<T>, default: T) -> T {
    match over {
        Some(v) => v,
        None => default,
    }
}

pub fn resolve_u64(over: Option<u64>, default: u64) -> (r: u64)
    ensures
        r == resolve(over, default),
{
    match over {
        Some(v) => v,
        None => default,
    }
}

pub fn resolve_usize(over: Option<usize>, default: usize) -> (r: usize)
    ensures
        r == resolve(over, default),
{
    match over {
        Some(v) => v,
        None => default,
    }
}

fn override_u64(base: Option<u64>, over: Option<u64>) -> (r: Option<u64>)
    ensures
        r == override_with(base, over),
{
    match over {
        Some(v) => Some(v),
        None => base,
    }
}

fn override_usize(base: Option<usize>, over: Option<usize>) -> (r: Option<usize>)
    ensures
        r == override_with(base, over),
{
    match over {
        Some(v) => Some(v),
        None => base,
    }
}

/// Every knob of `a` overridden by the ones set in `b`.
pub open spec fn merged(a: TenantConfOpt, b: TenantConfOpt) -> TenantConfOpt {
    TenantConfOpt {
        checkpoint_distance: override_with(a.checkpoint_distance, b.checkpoint_distance),
        checkpoint_timeout: override_with(a.checkpoint_timeout, b.checkpoint_timeout),
        compaction_target_size: override_with(a.compaction_target_size, b.compaction_target_size),
        compaction_period: override_with(a.compaction_period, b.compaction_period),
        compaction_threshold: override_with(a.compaction_threshold, b.compaction_threshold),
        gc_horizon: override_with(a.gc_horizon, b.gc_horizon),
        gc_period: override_with(a.gc_period, b.gc_period),
        image_creation_threshold: override_with(
            a.image_creation_threshold,
            b.image_creation_threshold,
        ),
        pitr_interval: override_with(a.pitr_interval, b.pitr_interval),
        walreceiver_connect_timeout: override_with(
            a.walreceiver_connect_timeout,
            b.walreceiver_connect_timeout,
        ),
        lagging_wal_timeout: override_with(a.lagging_wal_timeout, b.lagging_wal_timeout),
        max_lsn_wal_lag: override_with(a.max_lsn_wal_lag, b.max_lsn_wal_lag),
    }
}

impl TenantConfOpt {
    pub open spec fn empty_spec() -> TenantConfOpt {
        TenantConfOpt {
            checkpoint_distance: None,
            checkpoint_timeout: None,
            compaction_target_size: None,
            compaction_period: None,
            compaction_threshold: None,
            gc_horizon: None,
            gc_period: None,
            image_creation_threshold: None,
            pitr_interval: None,
            walreceiver_connect_timeout: None,
            lagging_wal_timeout: None,
            max_lsn_wal_lag: None,
        }
    }

    /// No override set.
    pub fn empty() -> (r: TenantConfOpt)
        ensures
            r == (TenantConfOpt {
                checkpoint_distance: None,
                checkpoint_timeout: None,
                compaction_target_size: None,
                compaction_period: None,
                compaction_threshold: None,
                gc_horizon: None,
                gc_period: None,
                image_creation_threshold: None,
                pitr_interval: None,
                walreceiver_connect_timeout: None,
                lagging_wal_timeout: None,
                max_lsn_wal_lag: None,
            }),
    {
        TenantConfOpt {
            checkpoint_distance: None,
            checkpoint_timeout: None,
            compaction_target_size: None,
            compaction_period: None,
            compaction_threshold: None,
            gc_horizon: None,
            gc_period: None,
            image_creation_threshold: None,
            pitr_interval: None,
            walreceiver_connect_timeout: None,
            lagging_wal_timeout: None,
            max_lsn_wal_lag: None,
        }
    }

    /// Every knob of `conf` set.
    pub fn from_conf(conf: &TenantConf) -> (r: TenantConfOpt)
        ensures
            r == (TenantConfOpt {
                checkpoint_distance: Some(conf.checkpoint_distance),
                checkpoint_timeout: Some(conf.checkpoint_timeout),
                compaction_target_size: Some(conf.compaction_target_size),
                compaction_period: Some(conf.compaction_period),
                compaction_threshold: Some(conf.compaction_threshold),
                gc_horizon: Some(conf.gc_horizon),
                gc_period: Some(conf.gc_period),
                image_creation_threshold: Some(conf.image_creation_threshold),
                pitr_interval: Some(conf.pitr_interval),
                walreceiver_connect_timeout: Some(conf.walreceiver_connect_timeout),
                lagging_wal_timeout: Some(conf.lagging_wal_timeout),
                max_lsn_wal_lag: Some(conf.max_lsn_wal_lag),
            }),
    {
        TenantConfOpt {
            checkpoint_distance: Some(conf.checkpoint_distance),
            checkpoint_timeout: Some(conf.checkpoint_timeout),
            compaction_target_size: Some(conf.compaction_target_size),
            compaction_period: Some(conf.compaction_period),
            compaction_threshold: Some(conf.compaction_threshold),
            gc_horizon: Some(conf.gc_horizon),
            gc_period: Some(conf.gc_period),
            image_creation_threshold: Some(conf.image_creation_threshold),
            pitr_interval: Some(conf.pitr_interval),
            walreceiver_connect_timeout: Some(conf.walreceiver_connect_timeout),
            lagging_wal_timeout: Some(conf.lagging_wal_timeout),
            max_lsn_wal_lag: Some(conf.max_lsn_wal_lag),
        }
    }

    /// Takes over every knob that `other` sets; the others stay.
    pub fn update(&mut self, other: &TenantConfOpt)
        ensures
            *final(self) == merged(*old(self), *other),
    {
        *self = TenantConfOpt {
            checkpoint_distance: override_u64(self.checkpoint_distance, other.checkpoint_distance),
            checkpoint_timeout: override_u64(self.checkpoint_timeout, other.checkpoint_timeout),
            compaction_target_size: override_u64(
                self.compaction_target_size,
                other.compaction_target_size,
            ),
            compaction_period: override_u64(self.compaction_period, other.compaction_period),
            compaction_threshold: override_usize(
                self.compaction_threshold,
                other.compaction_threshold,
            ),
            gc_horizon: override_u64(self.gc_horizon, other.gc_horizon),
            gc_period: override_u64(self.gc_period, other.gc_period),
            image_creation_threshold: override_usize(
                self.image_creation_threshold,
                other.image_creation_threshold,
            ),
            pitr_interval: override_u64(self.pitr_interval, other.pitr_interval),
            walreceiver_connect_timeout: override_u64(
                self.walreceiver_connect_timeout,
                other.walreceiver_connect_timeout,
            ),
            lagging_wal_timeout: override_u64(self.lagging_wal_timeout, other.lagging_wal_timeout),
            max_lsn_wal_lag: override_u64(self.max_lsn_wal_lag, other.max_lsn_wal_lag),
        };
    }
}

/// An entry of a TOML table: its key, and its value when that is an integer or a string.
pub type TomlTableEntry = (String, Option<i64>, Option<String>);

/// A top-level entry of a TOML document: its key, and the entries of its item when that is a
/// table.
pub type TomlRootEntry = (String, Option<Vec<TomlTableEntry>>);

pub type TableEntryView = (Seq<char>, Option<i64>, Option<Seq<char>>);

pub type RootEntryView = (Seq<char>, Option<Seq<TableEntryView>>);

pub open spec fn table_entry_view(e: TomlTableEntry) -> TableEntryView {
    (
        e.0@,
        e.1,
        match e.2 {
            Some(s) => Some(s@),
            None => None,
        },
    )
}

pub open spec fn root_entry_view(e: TomlRootEntry) -> RootEntryView {
    (
        e.0@,
        match e.1 {
            Some(t) => Some(t@.map_values(|x: TomlTableEntry| table_entry_view(x))),
            None => None,
        },
    )
}

pub open spec fn root_view(v: Seq<TomlRootEntry>) -> Seq<RootEntryView> {
    v.map_values(|e: TomlRootEntry| root_entry_view(e))
}

#[verifier::external_type_specification]
#[verifier::external_body]
pub struct ExTomlError(toml_edit::TomlError);

/// Name for what the TOML parser makes of `text`: `None` if it is no TOML document, else its
/// top-level entries in order, with the entries of those that are tables.
pub uninterp spec fn toml_root_of(text: Seq<char>) -> Option<Seq<RootEntryView>>;

/// The most opening brackets and braces a config text may hold. The TOML parser recurses once
/// per nested array or inline table, so this bounds its stack depth.
pub const MAX_TOML_OPENINGS: usize = 64;

/// Number of `[` and `{` bytes in `b`.
pub open spec fn openings(b: Seq<u8>) -> nat
    decreases b.len(),
{
    if b.len() == 0 {
        0
    } else {
        openings(b.drop_last()) + if b.last() == 91 || b.last() == 123 {
            1nat
        } else {
            0nat
        }
    }
}

/// The text is small enough in nesting for the TOML parser: at most `MAX_TOML_OPENINGS`
/// brackets and braces.
pub open spec fn toml_nesting_bounded(b: Seq<u8>) -> bool {
    openings(b) <= MAX_TOML_OPENINGS
}

fn count_openings(b: &[u8]) -> (r: usize)
    ensures
        r == openings(b@),
{
    let mut n: usize = 0;
    let mut i: usize = 0;
    while i < b.len()
        invariant
            i <= b@.len(),
            n == openings(b@.subrange(0, i as int)),
            n <= i,
        decreases b@.len() - i,
    {
        proof {
            assert(b@.subrange(0, i + 1).drop_last() =~= b@.subrange(0, i as int));
        }
        if b[i] == 91 || b[i] == 123 {
            n = n + 1;
        }
        i = i + 1;
    }
    proof {
        assert(b@.subrange(0, i as int) =~= b@);
    }
    n
}

/// Relies on toml_edit's `Document` parser (`FromStr`) and on `Table::iter` and `Item::as_table`,
/// `as_integer` and `as_str`: the result depends on the text alone. The parser recurses without
/// limit on nested arrays and inline tables, so the text's nesting is bounded first.
#[verifier::external_body]
fn toml_root_entries(text: &str) -> (r: Result<Vec<TomlRootEntry>, toml_edit::TomlError>)
    requires
        toml_nesting_bounded(text.spec_bytes()),
    ensures
        match r {
            Ok(v) => toml_root_of(text@) == Some(root_view(v@)),
            Err(_) => toml_root_of(text@) is None,
        },
{
    let doc = text.parse::<toml_edit::Document>()?;
    Ok(doc.iter().map(|(k, item)| (k.to_string(), item.as_table().map(|t| {
        t.iter().map(|(k2, v)| (k2.to_string(), v.as_integer(), v.as_str().map(String::from)))
            .collect()
    }))).collect())
}

/// Name for the duration, in whole milliseconds (any sub-millisecond part dropped), that a
/// human-readable string such as `10s` or `1h 30m` denotes, if it is one and fits in `u64`.
pub uninterp spec fn duration_ms_of(s: Seq<char>) -> Option<u64>;

/// The most decimal digits a duration string may hold.
pub const MAX_DURATION_DIGITS: usize = 10;

/// Number of ASCII digit bytes in `b`.
pub open spec fn digit_count(b: Seq<u8>) -> nat
    decreases b.len(),
{
    if b.len() == 0 {
        0
    } else {
        digit_count(b.drop_last()) + if 48 <= b.last() <= 57 {
            1nat
        } else {
            0nat
        }
    }
}

/// A duration string with at most `MAX_DURATION_DIGITS` digits: each of its numbers is below
/// 10^10, so the seconds it adds up to, at most a year each, stay far below `u64::MAX`.
pub open spec fn duration_text_bounded(b: Seq<u8>) -> bool {
    digit_count(b) <= MAX_DURATION_DIGITS
}

fn count_digits(b: &[u8]) -> (r: usize)
    ensures
        r == digit_count(b@),
{
    let mut n: usize = 0;
    let mut i: usize = 0;
    while i < b.len()
        invariant
            i <= b@.len(),
            n == digit_count(b@.subrange(0, i as int)),
            n <= i,
        decreases b@.len() - i,
    {
        proof {
            assert(b@.subrange(0, i + 1).drop_last() =~= b@.subrange(0, i as int));
        }
        if 48 <= b[i] && b[i] <= 57 {
            n = n + 1;
        }
        i = i + 1;
    }
    proof {
        assert(b@.subrange(0, i as int) =~= b@);
    }
    n
}

/// Relies on humantime::parse_duration: the result depends on the string alone. It panics when
/// the seconds add up to exactly `u64::MAX` with a full second of nanoseconds on top, which the
/// digit bound rules out.
#[verifier::external_body]
fn parse_duration_ms(s: &str) -> (r: Option<u64>)
    requires
        duration_text_bounded(s.spec_bytes()),
    ensures
        r == duration_ms_of(s@),
{
    humantime::parse_duration(s).ok().and_then(|d| u64::try_from(d.as_millis()).ok())
}

/// Why a tenant config file is refused.
pub enum ConfigFault {
    UnknownKey(Seq<char>),
    Parse,
}

/// `e` is the error that `f` describes.
pub open spec fn fault_is(e: TenantError, f: ConfigFault) -> bool {
    match f {
        ConfigFault::UnknownKey(k) => match e {
            TenantError::UnknownConfigKey { key } => key@ == k,
            _ => false,
        },
        ConfigFault::Parse => e == TenantError::ConfigParse,
    }
}

pub open spec fn result_is(r: Result<TenantConfOpt, TenantError>, s: Result<TenantConfOpt,
    ConfigFault>) -> bool {
    match s {
        Ok(c) => r == Ok::<TenantConfOpt, TenantError>(c),
        Err(f) => r is Err && fault_is(r->Err_0, f),
    }
}

pub open spec fn as_u64(v: Option<i64>) -> Option<u64> {
    match v {
        Some(i) => if i >= 0 { Some(i as u64) } else { None },
        None => None,
    }
}

pub open spec fn as_usize(v: Option<i64>) -> Option<usize> {
    match v {
        Some(i) => if 0 <= i <= usize::MAX { Some(i as usize) } else { None },
        None => None,
    }
}

/// The duration a config string denotes; strings with more than `MAX_DURATION_DIGITS` digits
/// are refused.
pub open spec fn as_duration(v: Option<Seq<char>>) -> Option<u64> {
    match v {
        Some(s) => if digit_count(encode_utf8(s)) <= MAX_DURATION_DIGITS {
            duration_ms_of(s)
        } else {
            None
        },
        None => None,
    }
}

pub open spec fn set_or_fault<T>(v: Option<T>, f: spec_fn(T) -> TenantConfOpt) -> Result<
    TenantConfOpt,
    ConfigFault,
> {
    match v {
        Some(x) => Ok(f(x)),
        None => Err(ConfigFault::Parse),
    }
}

/// `c` with the knob of entry `e` set: integers for sizes and counts, human-readable strings
/// for durations.
pub open spec fn apply_entry(c: TenantConfOpt, e: TableEntryView) -> Result<TenantConfOpt,
    ConfigFault> {
    let (k, i, s) = e;
    if k == "checkpoint_distance"@ {
        set_or_fault(as_u64(i), |x: u64| TenantConfOpt { checkpoint_distance: Some(x), ..c })
    } else if k == "checkpoint_timeout"@ {
        set_or_fault(as_duration(s), |x: u64| TenantConfOpt { checkpoint_timeout: Some(x), ..c })
    } else if k == "compaction_target_size"@ {
        set_or_fault(as_u64(i), |x: u64| TenantConfOpt { compaction_target_size: Some(x), ..c })
    } else if k == "compaction_period"@ {
        set_or_fault(as_duration(s), |x: u64| TenantConfOpt { compaction_period: Some(x), ..c })
    } else if k == "compaction_threshold"@ {
        set_or_fault(as_usize(i), |x: usize| TenantConfOpt { compaction_threshold: Some(x),
            ..c })
    } else if k == "gc_horizon"@ {
        set_or_fault(as_u64(i), |x: u64| TenantConfOpt { gc_horizon: Some(x), ..c })
    } else if k == "gc_period"@ {
        set_or_fault(as_duration(s), |x: u64| TenantConfOpt { gc_period: Some(x), ..c })
    } else if k == "image_creation_threshold"@ {
        set_or_fault(as_usize(i), |x: usize| TenantConfOpt { image_creation_threshold: Some(x),
            ..c })
    } else if k == "pitr_interval"@ {
        set_or_fault(as_duration(s), |x: u64| TenantConfOpt { pitr_interval: Some(x), ..c })
    } else if k == "walreceiver_connect_timeout"@ {
        set_or_fault(as_duration(s), |x: u64| TenantConfOpt { walreceiver_connect_timeout: Some(x), ..c })
    } else if k == "lagging_wal_timeout"@ {
        set_or_fault(as_duration(s), |x: u64| TenantConfOpt { lagging_wal_timeout: Some(x),
            ..c })
    } else if k == "max_lsn_wal_lag"@ {
        set_or_fault(as_u64(i), |x: u64| TenantConfOpt { max_lsn_wal_lag: Some(x), ..c })
    } else {
        Err(ConfigFault::UnknownKey(k))
    }
}

/// The overrides that the entries of a `[tenant_config]` table set, in order; the first bad
/// entry is the error.
pub open spec fn conf_from_table(entries: Seq<TableEntryView>) -> Result<TenantConfOpt, ConfigFault>
    decreases entries.len(),
{
    if entries.len() == 0 {
        Ok(TenantConfOpt::empty_spec())
    } else {
        match conf_from_table(entries.drop_last()) {
            Ok(c) => apply_entry(c, entries.last()),
            Err(f) => Err(f),
        }
    }
}

/// The overrides of a config document: only a `[tenant_config]` table may stand at the top.
pub open spec fn conf_from_root(root: Seq<RootEntryView>) -> Result<TenantConfOpt, ConfigFault>
    decreases root.len(),
{
    if root.len() == 0 {
        Ok(TenantConfOpt::empty_spec())
    } else {
        match conf_from_root(root.drop_last()) {
            Err(f) => Err(f),
            Ok(_) => {
                let (k, t) = root.last();
                if k != "tenant_config"@ {
                    Err(ConfigFault::UnknownKey(k))
                } else {
                    match t {
                        Some(entries) => conf_from_table(entries),
                        None => Err(ConfigFault::Parse),
                    }
                }
            },
        }
    }
}

proof fn lemma_root_err_prefix(s: Seq<RootEntryView>, m: int)
    requires
        0 <= m <= s.len(),
        conf_from_root(s.subrange(0, m)) is Err,
    ensures
        conf_from_root(s) == conf_from_root(s.subrange(0, m)),
    decreases s.len(),
{
    if m == s.len() {
        assert(s.subrange(0, m) =~= s);
    } else {
        assert(s.drop_last().subrange(0, m) =~= s.subrange(0, m));
        lemma_root_err_prefix(s.drop_last(), m);
    }
}

proof fn lemma_table_err_prefix(s: Seq<TableEntryView>, m: int)
    requires
        0 <= m <= s.len(),
        conf_from_table(s.subrange(0, m)) is Err,
    ensures
        conf_from_table(s) == conf_from_table(s.subrange(0, m)),
    decreases s.len(),
{
    if m == s.len() {
        assert(s.subrange(0, m) =~= s);
    } else {
        assert(s.drop_last().subrange(0, m) =~= s.subrange(0, m));
        lemma_table_err_prefix(s.drop_last(), m);
    }
}

fn key_is(k: &String, name: &str) -> (r: bool)
    ensures
        r == (k@ == name@),
{
    *k == name.to_owned()
}

fn int_u64(v: Option<i64>) -> (r: Option<u64>)
    ensures
        r == as_u64(v),
{
    match v {
        Some(i) => if i >= 0 { Some(i as u64) } else { None },
        None => None,
    }
}

fn int_usize(v: Option<i64>) -> (r: Option<usize>)
    ensures
        r == as_usize(v),
{
    match v {
        Some(i) => if i >= 0
            && (i as u64) <= (usize::MAX as u64) { Some(i as usize) } else { None },
        None => None,
    }
}

fn str_duration(v: &Option<String>) -> (r: Option<u64>)
    ensures
        r == as_duration(match v {
            Some(s) => Some(s@),
            None => None,
        }),
{
    match v {
        Some(s) => {
            let text = s.as_str();
            if count_digits(text.as_bytes()) <= MAX_DURATION_DIGITS {
                parse_duration_ms(text)
            } else {
                None
            }
        },
        None => None,
    }
}

/// Sets the knob of one `[tenant_config]` entry.
fn apply_table_entry(c: TenantConfOpt, e: &TomlTableEntry) -> (r: Result<TenantConfOpt,
    TenantError>)
    ensures
        result_is(r, apply_entry(c, table_entry_view(*e))),
{
    let k = &e.0;
    let bad = Err(TenantError::ConfigParse);
    if key_is(k, "checkpoint_distance") {
        match int_u64(e.1) { Some(x) => Ok(TenantConfOpt { checkpoint_distance: Some(x), ..c }),
            None => bad }
    } else if key_is(k, "checkpoint_timeout") {
        match str_duration(&e.2) { Some(x) => Ok(TenantConfOpt { checkpoint_timeout: Some(x),
            ..c }), None => bad }
    } else if key_is(k, "compaction_target_size") {
        match int_u64(e.1) { Some(x) => Ok(TenantConfOpt { compaction_target_size: Some(x), ..c }),
            None => bad }
    } else if key_is(k, "compaction_period") {
        match str_duration(&e.2) { Some(x) => Ok(TenantConfOpt { compaction_period: Some(x),
            ..c }), None => bad }
    } else if key_is(k, "compaction_threshold") {
        match int_usize(e.1) { Some(x) => Ok(TenantConfOpt { compaction_threshold: Some(x), ..c }),
            None => bad }
    } else if key_is(k, "gc_horizon") {
        match int_u64(e.1) { Some(x) => Ok(TenantConfOpt { gc_horizon: Some(x), ..c }),
            None => bad }
    } else if key_is(k, "gc_period") {
        match str_duration(&e.2) { Some(x) => Ok(TenantConfOpt { gc_period: Some(x), ..c }),
            None => bad }
    } else if key_is(k, "image_creation_threshold") {
        match int_usize(e.1) { Some(x) => Ok(TenantConfOpt { image_creation_threshold: Some(x),
            ..c }), None => bad }
    } else if key_is(k, "pitr_interval") {
        match str_duration(&e.2) { Some(x) => Ok(TenantConfOpt { pitr_interval: Some(x), ..c }),
            None => bad }
    } else if key_is(k, "walreceiver_connect_timeout") {
        match str_duration(&e.2) { Some(x) => Ok(TenantConfOpt { walreceiver_connect_timeout:
            Some(x), ..c }), None => bad }
    } else if key_is(k, "lagging_wal_timeout") {
        match str_duration(&e.2) { Some(x) => Ok(TenantConfOpt { lagging_wal_timeout: Some(x),
            ..c }), None => bad }
    } else if key_is(k, "max_lsn_wal_lag") {
        match int_u64(e.1) { Some(x) => Ok(TenantConfOpt { max_lsn_wal_lag: Some(x), ..c }),
            None => bad }
    } else {
        Err(TenantError::UnknownConfigKey { key: k.clone() })
    }
}

/// The overrides that the top-level entries of a config document set (see `conf_from_root`).
pub fn tenant_conf_from_toml(root: &Vec<TomlRootEntry>) -> (r: Result<TenantConfOpt, TenantError>)
    ensures
        result_is(r, conf_from_root(root_view(root@))),
{
    let mut conf = TenantConfOpt::empty();
    let mut i: usize = 0;
    while i < root.len()
        invariant
            i <= root@.len(),
            conf_from_root(root_view(root@.subrange(0, i as int))) == Ok::<TenantConfOpt,
                ConfigFault>(conf),
        decreases root@.len() - i,
    {
        proof {
            assert(root_view(root@.subrange(0, i + 1)).drop_last() =~= root_view(root@.subrange(0,
                i as int)));
        }
        let (k, t) = (&root[i].0, &root[i].1);
        let ghost rv = root_view(root@);
        proof {
            assert(root_view(root@.subrange(0, i + 1)) =~= rv.subrange(0, i + 1));
            assert(rv[i as int] == root_entry_view(root@[i as int]));
        }
        if !key_is(k, "tenant_config") {
            proof {
                lemma_root_err_prefix(rv, i + 1);
            }
            return Err(TenantError::UnknownConfigKey { key: k.clone() });
        }
        let entries = match t {
            Some(entries) => entries,
            None => {
                proof {
                    lemma_root_err_prefix(rv, i + 1);
                }
                return Err(TenantError::ConfigParse);
            },
        };
        let ghost ev = entries@.map_values(|x: TomlTableEntry| table_entry_view(x));
        let mut c = TenantConfOpt::empty();
        let mut j: usize = 0;
        while j < entries.len()
            invariant
                j <= entries@.len(),
                ev == entries@.map_values(|x: TomlTableEntry| table_entry_view(x)),
                rv == root_view(root@),
                i < root@.len(),
                rv[i as int] == root_entry_view(root@[i as int]),
                root@[i as int].1 == Some(*entries),
                root@[i as int].0@ == "tenant_config"@,
                conf_from_root(root_view(root@.subrange(0, i as int))) is Ok,
                root_view(root@.subrange(0, i + 1)) == rv.subrange(0, i + 1),
                conf_from_table(entries@.subrange(0,
                    j as int).map_values(|x: TomlTableEntry| table_entry_view(x)))
                    == Ok::<TenantConfOpt, ConfigFault>(c),
            decreases entries@.len() - j,
        {
            proof {
                assert(entries@.subrange(0,
                    j + 1).map_values(|x: TomlTableEntry| table_entry_view(x)).drop_last() =~=
                    entries@.subrange(0,
                    j as int).map_values(|x: TomlTableEntry| table_entry_view(x)));
            }
            match apply_table_entry(c, &entries[j]) {
                Ok(c2) => {
                    c = c2;
                },
                Err(e) => {
                    proof {
                        assert(entries@.subrange(0,
                            j + 1).map_values(|x: TomlTableEntry| table_entry_view(x)) =~=
                            ev.subrange(0, j + 1));
                        lemma_table_err_prefix(ev, j + 1);
                        assert(rv[i as int].1.unwrap() =~= ev);
                        assert(root_view(root@.subrange(0, i as int)) =~= rv.subrange(0, i as int));
                        assert(rv.subrange(0, i + 1).drop_last() =~= rv.subrange(0, i as int));
                        assert(conf_from_root(rv.subrange(0, i + 1)) == conf_from_table(ev));
                        lemma_root_err_prefix(rv, i + 1);
                    }
                    return Err(e);
                },
            }
            j = j + 1;
        }
        proof {
            assert(entries@.subrange(0, j as int) =~= entries@);
        }
        conf = c;
        i = i + 1;
    }
    proof {
        assert(root@.subrange(0, i as int) =~= root@);
    }
    Ok(conf)
}

/// Parses the text of a tenant config file: a TOML document whose only top-level entry may be
/// a `[tenant_config]` table of knobs. An empty document sets no knob. A text with more than
/// `MAX_TOML_OPENINGS` brackets and braces is refused.
pub fn parse_tenant_config(text: &str) -> (r: Result<TenantConfOpt, TenantError>)
    ensures
        !toml_nesting_bounded(text.spec_bytes()) ==> r == Err::<TenantConfOpt, TenantError>(
            TenantError::ConfigParse,
        ),
        toml_nesting_bounded(text.spec_bytes()) ==> match toml_root_of(text@) {
            None => r == Err::<TenantConfOpt, TenantError>(TenantError::ConfigParse),
            Some(root) => result_is(r, conf_from_root(root)),
        },
{
    if count_openings(text.as_bytes()) > MAX_TOML_OPENINGS {
        return Err(TenantError::ConfigParse);
    }
    match toml_root_entries(text) {
        Ok(root) => tenant_conf_from_toml(&root),
        Err(_) => Err(TenantError::ConfigParse),
    }
}

} // verus!
