//! Whether a page must be rendered again, from file modification times.
use vstd::prelude::*;

verus! {

/// A point in time: whole seconds from the Unix epoch, negative before it,
/// and nanoseconds into that second.
#[derive(Clone, Copy, Debug, PartialEq, Eq, Structural)]
pub struct Timestamp {
    pub secs: i64,
    pub nanos: u32,
}

/// `a` is not earlier than `b`.
pub open spec fn not_earlier(a: Timestamp, b: Timestamp) -> bool {
    a.secs > b.secs || (a.secs == b.secs && a.nanos >= b.nanos)
}

/// The rebuild rule: a page may be left as it is only when it exists, all
/// three times are known, and it is not older than the configuration nor
/// than its source; forcing always rebuilds.
pub open spec fn skip_rule(
    force_rebuild: bool,
    config: Option<Timestamp>,
    source: Option<Timestamp>,
    dest: Option<Timestamp>,
) -> bool {
    !force_rebuild && match (config, source, dest) {
        (Some(c), Some(s), Some(d)) => not_earlier(d, c) && not_earlier(d, s),
        _ => false,
    }
}

impl Timestamp {
    /// Whether `self` is not earlier than `other`.
    pub fn not_earlier_than(&self, other: &Timestamp) -> (r: bool)
        ensures
            r == not_earlier(*self, *other),
    {
        self.secs > other.secs || (self.secs == other.secs && self.nanos >= other.nanos)
    }
}

/// Whether rendering a page may be skipped. A missing time (no page yet,
/// or a time that could not be read) forces the rebuild.
pub fn should_skip(
    force_rebuild: bool,
    config_mtime: Option<Timestamp>,
    source_mtime: Option<Timestamp>,
    dest_mtime: Option<Timestamp>,
) -> (r: bool)
    ensures
        r == skip_rule(force_rebuild, config_mtime, source_mtime, dest_mtime),
{
    if force_rebuild {
        return false;
    }
    match (config_mtime, source_mtime, dest_mtime) {
        (Some(c), Some(s), Some(d)) => d.not_earlier_than(&c) && d.not_earlier_than(&s),
        _ => false,
    }
}

/// A page written after its source and the configuration were last changed
/// is skipped on the next run unless the rebuild is forced: running again
/// with nothing changed renders nothing again.
pub proof fn lemma_unchanged_inputs_skip(config: Timestamp, source: Timestamp, dest: Timestamp)
    requires
        not_earlier(dest, config),
        not_earlier(dest, source),
    ensures
        skip_rule(false, Some(config), Some(source), Some(dest)),
        !skip_rule(true, Some(config), Some(source), Some(dest)),
{
}

/// The exact instant, in nanoseconds from the epoch.
pub open spec fn instant_nanos(t: Timestamp) -> int {
    t.secs * 1_000_000_000 + t.nanos
}

/// The timestamp of an instant given as a distance from the Unix epoch,
/// `secs` whole seconds and `subsec_nanos` nanoseconds, before the epoch
/// when `before_epoch` holds. The result's nanoseconds count forward from
/// its second, so an instant before the epoch rounds its seconds down.
pub fn system_time_to_date_time(before_epoch: bool, secs: u64, subsec_nanos: u32) -> (r: Timestamp)
    requires
        secs <= i64::MAX,
        subsec_nanos < 1_000_000_000,
    ensures
        r.nanos < 1_000_000_000,
        instant_nanos(r) == if before_epoch {
            -(secs * 1_000_000_000 + subsec_nanos)
        } else {
            secs * 1_000_000_000 + subsec_nanos
        },
{
    let s = secs as i64;
    if !before_epoch {
        Timestamp { secs: s, nanos: subsec_nanos }
    } else if subsec_nanos == 0 {
        Timestamp { secs: -s, nanos: 0 }
    } else {
        Timestamp { secs: -s - 1, nanos: 1_000_000_000 - subsec_nanos }
    }
}

} // verus!
