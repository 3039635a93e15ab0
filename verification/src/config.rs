//! Configuration of the allocator and of its background worker.
use vstd::prelude::*;

verus! {

/// The bits of the single-precision number one.
pub const ONE_BITS: u32 = 0x3f80_0000;

/// The bits of the single-precision number one half, the default decay.
pub const HALF_BITS: u32 = 0x3f00_0000;

/// The bits of single-precision infinity. Magnitudes beyond it are not numbers.
pub const INFINITY_BITS: u32 = 0x7f80_0000;

/// The bits of single-precision negative zero, which is the sign bit alone.
pub const NEGATIVE_ZERO_BITS: u32 = 0x8000_0000;

/// The longest interval, in nanoseconds: as many seconds as a 64-bit word can hold, and all but
/// one of the nanoseconds of another one.
pub const FOREVER: u128 = 18_446_744_073_709_551_615_999_999_999;

/// The bits are those of a not-a-number value.
pub open spec fn is_nan(bits: u32) -> bool {
    ||| INFINITY_BITS < bits < NEGATIVE_ZERO_BITS
    ||| NEGATIVE_ZERO_BITS + INFINITY_BITS < bits
}

/// The bits are those of a number less than zero.
pub open spec fn below_zero(bits: u32) -> bool {
    NEGATIVE_ZERO_BITS < bits <= NEGATIVE_ZERO_BITS + INFINITY_BITS
}

/// The bits are those of a number greater than one. Positive numbers are ordered as their bits.
pub open spec fn above_one(bits: u32) -> bool {
    ONE_BITS < bits <= INFINITY_BITS
}

/// The decay that is used where `bits` is asked for: the nearest one from zero to one, and the
/// default for what is not a number.
pub open spec fn decay_for(bits: u32) -> u32 {
    if is_nan(bits) {
        HALF_BITS
    } else if below_zero(bits) {
        0
    } else if above_one(bits) {
        ONE_BITS
    } else {
        bits
    }
}

/// Restricts a decay factor, given by its single-precision bits, to the range from zero to one.
pub fn sanitize_decay(bits: u32) -> (decay: u32)
    ensures
        decay == decay_for(bits),
{
    if bits > NEGATIVE_ZERO_BITS {
        if bits - NEGATIVE_ZERO_BITS > INFINITY_BITS {
            HALF_BITS
        } else {
            0
        }
    } else if bits == NEGATIVE_ZERO_BITS || bits <= ONE_BITS {
        bits
    } else if bits <= INFINITY_BITS {
        ONE_BITS
    } else {
        HALF_BITS
    }
}

/// The switches that allocations and deallocations read.
#[derive(Clone, Copy, Debug, PartialEq, Eq, Structural)]
pub struct Settings {
    /// Enabled switch to turn on or off the allocator. Off by default.
    pub enabled: bool,
    /// Enable eager returning of memory. Off by default.
    pub eager_return: bool,
    /// Dampener in the area growth rate. 0 corresponds to doubling and in general `n` to
    /// `1+1/(n+1)`.
    pub growth_dampener: usize,
    /// The size of allocations to retain locally, per thread and size class. 32 MiB by default.
    pub local_buffer_bytes: usize,
}

impl Default for Settings {
    fn default() -> (settings: Self)
        ensures
            settings == (Settings {
                enabled: false,
                eager_return: false,
                growth_dampener: 0,
                local_buffer_bytes: 0x200_0000,
            }),
    {
        Settings { enabled: false, eager_return: false, growth_dampener: 0, local_buffer_bytes: 0x200_0000 }
    }
}

/// Full configuration that the background worker holds.
#[derive(Clone, Copy, Debug, PartialEq, Eq, Structural)]
pub struct BackgroundWorkerConfig {
    /// How frequently the worker ticks, in nanoseconds. [`FOREVER`] = effectively disabled.
    pub interval: u128,
    /// Minimum bytes to clear per size class per tick.
    pub clear_bytes: usize,
    /// Single-precision bits of the decay factor for exponential backlog drain.
    pub decay: u32,
}

impl Default for BackgroundWorkerConfig {
    fn default() -> (config: Self)
        ensures
            config == (BackgroundWorkerConfig { interval: FOREVER, clear_bytes: 0, decay: HALF_BITS }),
    {
        BackgroundWorkerConfig { interval: FOREVER, clear_bytes: 0, decay: HALF_BITS }
    }
}

/// Partial configuration for the background worker, which overlays `Some(_)` fields onto its
/// current config and ignores `None` fields. Lets callers tweak one background knob without
/// clobbering the others.
#[derive(Clone, Copy, Debug, PartialEq, Eq, Structural)]
pub struct BackgroundConfigUpdate {
    /// The tick interval, in nanoseconds.
    pub interval: Option<u128>,
    /// Minimum bytes to clear per size class per tick.
    pub clear_bytes: Option<usize>,
    /// Single-precision bits of the decay factor.
    pub decay: Option<u32>,
}

/// The newer value, or the older one where there is none.
pub open spec fn overlaid<A>(older: A, newer: Option<A>) -> A {
    match newer {
        Some(value) => value,
        None => older,
    }
}

impl BackgroundWorkerConfig {
    /// The configuration after an update.
    pub open spec fn updated(self, update: BackgroundConfigUpdate) -> BackgroundWorkerConfig {
        BackgroundWorkerConfig {
            interval: overlaid(self.interval, update.interval),
            clear_bytes: overlaid(self.clear_bytes, update.clear_bytes),
            decay: overlaid(self.decay, update.decay),
        }
    }

    /// The update that sets every field.
    pub open spec fn full_update(self) -> BackgroundConfigUpdate {
        BackgroundConfigUpdate {
            interval: Some(self.interval),
            clear_bytes: Some(self.clear_bytes),
            decay: Some(self.decay),
        }
    }

    /// The update that makes any configuration this one.
    pub fn as_update(&self) -> (update: BackgroundConfigUpdate)
        ensures
            update == self.full_update(),
    {
        BackgroundConfigUpdate {
            interval: Some(self.interval),
            clear_bytes: Some(self.clear_bytes),
            decay: Some(self.decay),
        }
    }

    /// Overlay the fields that the update sets.
    pub fn overlay(&mut self, update: BackgroundConfigUpdate)
        ensures
            *final(self) == old(self).updated(update),
    {
        if let Some(interval) = update.interval {
            self.interval = interval;
        }
        if let Some(clear_bytes) = update.clear_bytes {
            self.clear_bytes = clear_bytes;
        }
        if let Some(decay) = update.decay {
            self.decay = decay;
        }
    }
}

/// The knobs of a configuration. Those that are `None` are not set.
#[derive(Clone, Copy, Debug, PartialEq, Eq, Structural)]
pub struct Knobs {
    /// Whether the allocator is enabled.
    pub enabled: Option<bool>,
    /// Whether to return physical memory on deallocate.
    pub eager_return: Option<bool>,
    /// Dampener in the area growth rate.
    pub growth_dampener: Option<usize>,
    /// Size of the per-thread per-size class cache, in bytes.
    pub local_buffer_bytes: Option<usize>,
    /// Background worker tick interval, in nanoseconds.
    pub background_interval: Option<u128>,
    /// Minimum bytes of backlog to clear per tick per size class.
    pub background_clear_bytes: Option<usize>,
    /// Single-precision bits of the exponential decay factor for backlog drain.
    pub background_decay: Option<u32>,
}

impl Knobs {
    /// No knob is set.
    pub open spec fn unset() -> Knobs {
        Knobs {
            enabled: None,
            eager_return: None,
            growth_dampener: None,
            local_buffer_bytes: None,
            background_interval: None,
            background_clear_bytes: None,
            background_decay: None,
        }
    }

    /// The settings once the knobs are applied.
    pub open spec fn applied_to(self, settings: Settings) -> Settings {
        Settings {
            enabled: overlaid(settings.enabled, self.enabled),
            eager_return: overlaid(settings.eager_return, self.eager_return),
            growth_dampener: overlaid(settings.growth_dampener, self.growth_dampener),
            local_buffer_bytes: overlaid(settings.local_buffer_bytes, self.local_buffer_bytes),
        }
    }

    /// A background knob is set.
    pub open spec fn any_background(self) -> bool {
        self.background_interval is Some || self.background_clear_bytes is Some || self.background_decay is Some
    }

    /// What the background worker is to be told.
    pub open spec fn background_update(self) -> BackgroundConfigUpdate {
        BackgroundConfigUpdate {
            interval: self.background_interval,
            clear_bytes: self.background_clear_bytes,
            decay: match self.background_decay {
                Some(bits) => Some(decay_for(bits)),
                None => None,
            },
        }
    }
}

/// Fluent builder for the allocator's configuration.
///
/// Constructed via [`builder()`]. Each setter consumes and returns `self` so the whole
/// configuration reads as one expression. [`Builder::apply`] commits the configuration: only
/// fields explicitly set via a setter are written to the settings; unset fields are preserved at
/// their prior values.
#[derive(Clone, Copy, Debug)]
pub struct Builder {
    knobs: Knobs,
}

impl View for Builder {
    type V = Knobs;

    closed spec fn view(&self) -> Knobs {
        self.knobs
    }
}

/// Begin configuring the allocator. Terminate the chain with [`Builder::apply`].
#[must_use]
pub fn builder() -> (builder: Builder)
    ensures
        builder@ == Knobs::unset(),
{
    Builder::default()
}

impl Default for Builder {
    fn default() -> (builder: Self)
        ensures
            builder@ == Knobs::unset(),
    {
        Builder {
            knobs: Knobs {
                enabled: None,
                eager_return: None,
                growth_dampener: None,
                local_buffer_bytes: None,
                background_interval: None,
                background_clear_bytes: None,
                background_decay: None,
            },
        }
    }
}

impl Builder {
    /// Set whether the allocator is enabled.
    pub fn enabled(self, yes: bool) -> (builder: Self)
        ensures
            builder@ == (Knobs { enabled: Some(yes), ..self@ }),
    {
        Builder { knobs: Knobs { enabled: Some(yes), ..self.knobs } }
    }

    /// Shorthand for `.enabled(true)`.
    pub fn enable(self) -> (builder: Self)
        ensures
            builder@ == (Knobs { enabled: Some(true), ..self@ }),
    {
        self.enabled(true)
    }

    /// Shorthand for `.enabled(false)`.
    pub fn disable(self) -> (builder: Self)
        ensures
            builder@ == (Knobs { enabled: Some(false), ..self@ }),
    {
        self.enabled(false)
    }

    /// Whether to return physical memory on deallocate.
    pub fn eager_return(self, yes: bool) -> (builder: Self)
        ensures
            builder@ == (Knobs { eager_return: Some(yes), ..self@ }),
    {
        Builder { knobs: Knobs { eager_return: Some(yes), ..self.knobs } }
    }

    /// Dampener in the area growth rate. `0` doubles; `n` grows by `1 + 1/(n+1)`.
    pub fn growth_dampener(self, n: usize) -> (builder: Self)
        ensures
            builder@ == (Knobs { growth_dampener: Some(n), ..self@ }),
    {
        Builder { knobs: Knobs { growth_dampener: Some(n), ..self.knobs } }
    }

    /// Size of the per-thread per-size class cache, in bytes.
    pub fn local_buffer_bytes(self, bytes: usize) -> (builder: Self)
        ensures
            builder@ == (Knobs { local_buffer_bytes: Some(bytes), ..self@ }),
    {
        Builder { knobs: Knobs { local_buffer_bytes: Some(bytes), ..self.knobs } }
    }

    /// Background worker tick interval, in nanoseconds.
    pub fn background_interval(self, nanos: u128) -> (builder: Self)
        ensures
            builder@ == (Knobs { background_interval: Some(nanos), ..self@ }),
    {
        Builder { knobs: Knobs { background_interval: Some(nanos), ..self.knobs } }
    }

    /// Minimum bytes of backlog to clear per tick per size class.
    pub fn background_clear_bytes(self, bytes: usize) -> (builder: Self)
        ensures
            builder@ == (Knobs { background_clear_bytes: Some(bytes), ..self@ }),
    {
        Builder { knobs: Knobs { background_clear_bytes: Some(bytes), ..self.knobs } }
    }

    /// Exponential decay factor for backlog drain, given by its single-precision bits.
    ///
    /// Higher values drain faster but cause more per-tick work. One half halves the backlog per
    /// tick beyond the floor. Zero disables acceleration and falls back to the floor rate.
    ///
    /// Values outside the range from zero to one are clamped to the nearest boundary by
    /// [`Builder::apply`]; what is not a number is replaced by the default.
    pub fn background_decay(self, bits: u32) -> (builder: Self)
        ensures
            builder@ == (Knobs { background_decay: Some(bits), ..self@ }),
    {
        Builder { knobs: Knobs { background_decay: Some(bits), ..self.knobs } }
    }

    /// Commit the configuration to the settings. Returns what the background worker is to be
    /// told, if any of its knobs is set.
    ///
    /// Only fields explicitly set on the builder are written. Unset fields preserve their prior
    /// values. This applies uniformly to both top-level knobs and background worker knobs: the
    /// background worker receives a partial update and overlays set fields onto its running
    /// configuration.
    pub fn apply(self, settings: &mut Settings) -> (update: Option<BackgroundConfigUpdate>)
        ensures
            *final(settings) == self@.applied_to(*old(settings)),
            final(settings).enabled == match self@.enabled {
                Some(yes) => yes,
                None => old(settings).enabled,
            },
            final(settings).eager_return == match self@.eager_return {
                Some(yes) => yes,
                None => old(settings).eager_return,
            },
            final(settings).growth_dampener == match self@.growth_dampener {
                Some(n) => n,
                None => old(settings).growth_dampener,
            },
            final(settings).local_buffer_bytes == match self@.local_buffer_bytes {
                Some(bytes) => bytes,
                None => old(settings).local_buffer_bytes,
            },
            update == (if self@.any_background() {
                Some(self@.background_update())
            } else {
                None
            }),
    {
        apply_config(self, settings)
    }
}

/// Commit a configuration; see [`Builder::apply`].
fn apply_config(b: Builder, settings: &mut Settings) -> (update: Option<BackgroundConfigUpdate>)
    ensures
        *final(settings) == b@.applied_to(*old(settings)),
        update == (if b@.any_background() {
            Some(b@.background_update())
        } else {
            None
        }),
{
    if let Some(enabled) = b.knobs.enabled {
        settings.enabled = enabled;
    }
    if let Some(eager_return) = b.knobs.eager_return {
        settings.eager_return = eager_return;
    }
    if let Some(growth_dampener) = b.knobs.growth_dampener {
        settings.growth_dampener = growth_dampener;
    }
    if let Some(local_buffer_bytes) = b.knobs.local_buffer_bytes {
        settings.local_buffer_bytes = local_buffer_bytes;
    }
    let decay: Option<u32> = match b.knobs.background_decay {
        Some(bits) => Some(sanitize_decay(bits)),
        None => None,
    };
    let update = BackgroundConfigUpdate {
        interval: b.knobs.background_interval,
        clear_bytes: b.knobs.background_clear_bytes,
        decay,
    };
    if update.interval.is_some() || update.clear_bytes.is_some() || update.decay.is_some() {
        Some(update)
    } else {
        None
    }
}

/// A decay factor that is used lies between zero and one, whatever was asked for; one that was
/// asked for in that range is used as it is.
pub proof fn law_decay_in_range(bits: u32)
    ensures
        decay_for(bits) <= ONE_BITS || decay_for(bits) == NEGATIVE_ZERO_BITS,
        bits <= ONE_BITS ==> decay_for(bits) == bits,
        decay_for(decay_for(bits)) == decay_for(bits),
{
}

/// A knob that is not set leaves its setting as it was; a configuration without knobs changes
/// nothing and tells the background worker nothing.
pub proof fn law_partial_update_preserves_others(knobs: Knobs, settings: Settings, config: BackgroundWorkerConfig)
    ensures
        knobs.enabled is None ==> knobs.applied_to(settings).enabled == settings.enabled,
        knobs.eager_return is None ==> knobs.applied_to(settings).eager_return == settings.eager_return,
        knobs.growth_dampener is None ==> knobs.applied_to(settings).growth_dampener
            == settings.growth_dampener,
        knobs.local_buffer_bytes is None ==> knobs.applied_to(settings).local_buffer_bytes
            == settings.local_buffer_bytes,
        knobs.background_interval is None ==> config.updated(knobs.background_update()).interval
            == config.interval,
        knobs.background_clear_bytes is None ==> config.updated(knobs.background_update()).clear_bytes
            == config.clear_bytes,
        knobs.background_decay is None ==> config.updated(knobs.background_update()).decay == config.decay,
        !knobs.any_background() ==> config.updated(knobs.background_update()) == config,
        Knobs::unset().applied_to(settings) == settings,
        !Knobs::unset().any_background(),
{
}

/// Applying the same knobs again changes nothing.
pub proof fn law_apply_is_idempotent(knobs: Knobs, settings: Settings, config: BackgroundWorkerConfig)
    ensures
        knobs.applied_to(knobs.applied_to(settings)) == knobs.applied_to(settings),
        config.updated(knobs.background_update()).updated(knobs.background_update()) == config.updated(
            knobs.background_update(),
        ),
{
}

/// A knob that is set is what its setting is afterwards, whatever it was before.
pub proof fn law_set_knob_counts(knobs: Knobs, settings: Settings, config: BackgroundWorkerConfig)
    ensures
        knobs.enabled matches Some(v) ==> knobs.applied_to(settings).enabled == v,
        knobs.eager_return matches Some(v) ==> knobs.applied_to(settings).eager_return == v,
        knobs.growth_dampener matches Some(v) ==> knobs.applied_to(settings).growth_dampener == v,
        knobs.local_buffer_bytes matches Some(v) ==> knobs.applied_to(settings).local_buffer_bytes == v,
        knobs.background_interval matches Some(v) ==> config.updated(knobs.background_update()).interval == v,
        knobs.background_clear_bytes matches Some(v) ==> config.updated(knobs.background_update()).clear_bytes == v,
        knobs.background_decay matches Some(v) ==> v <= 0x3f80_0000 ==> config.updated(
            knobs.background_update(),
        ).decay == v,
{
}

/// Of two configurations that are applied one after the other, a knob that the second sets has its value
/// from that one, and a knob that only the first sets from the first.
pub proof fn law_last_set_knob_counts(first: Knobs, second: Knobs, settings: Settings)
    ensures
        ({
            let after = second.applied_to(first.applied_to(settings));
            &&& second.enabled is Some ==> after.enabled == second.applied_to(settings).enabled
            &&& second.enabled is None ==> after.enabled == first.applied_to(settings).enabled
            &&& second.eager_return is Some ==> after.eager_return == second.applied_to(settings).eager_return
            &&& second.eager_return is None ==> after.eager_return == first.applied_to(settings).eager_return
            &&& second.growth_dampener is Some ==> after.growth_dampener == second.applied_to(
                settings,
            ).growth_dampener
            &&& second.growth_dampener is None ==> after.growth_dampener == first.applied_to(
                settings,
            ).growth_dampener
            &&& second.local_buffer_bytes is Some ==> after.local_buffer_bytes == second.applied_to(
                settings,
            ).local_buffer_bytes
            &&& second.local_buffer_bytes is None ==> after.local_buffer_bytes == first.applied_to(
                settings,
            ).local_buffer_bytes
        }),
{
}

/// The background worker is told what the background knobs say and nothing else, and is told something
/// exactly where one of them is set.
pub proof fn law_background_is_told_its_knobs(knobs: Knobs)
    ensures
        knobs.background_update().interval == knobs.background_interval,
        knobs.background_update().clear_bytes == knobs.background_clear_bytes,
        knobs.background_update().decay is Some <==> knobs.background_decay is Some,
        knobs.any_background() <==> !(knobs.background_interval is None && knobs.background_clear_bytes is None
            && knobs.background_decay is None),
{
}

/// A field that an update sets has that value afterwards, whatever it was before, and the others stay as
/// they were. The full update of a configuration makes any other one the same.
pub proof fn law_update_overlays(
    config: BackgroundWorkerConfig,
    update: BackgroundConfigUpdate,
    other: BackgroundWorkerConfig,
)
    ensures
        update.interval matches Some(v) ==> config.updated(update).interval == v,
        update.interval is None ==> config.updated(update).interval == config.interval,
        update.clear_bytes matches Some(v) ==> config.updated(update).clear_bytes == v,
        update.clear_bytes is None ==> config.updated(update).clear_bytes == config.clear_bytes,
        update.decay matches Some(v) ==> config.updated(update).decay == v,
        update.decay is None ==> config.updated(update).decay == config.decay,
        other.updated(config.full_update()) == config,
        config.full_update().interval == Some(config.interval),
        config.full_update().clear_bytes == Some(config.clear_bytes),
        config.full_update().decay == Some(config.decay),
{
}

/// The decay by the sign and the magnitude of what is asked for: one half for what is not a number, none for
/// a negative number, one for a number beyond one, and every other number as it is.
pub proof fn law_decay_is_clamped(bits: u32)
    ensures
        ({
            let negative = bits >= 0x8000_0000;
            let magnitude = if negative {
                bits - 0x8000_0000
            } else {
                bits as int
            };
            &&& magnitude > 0x7f80_0000 ==> decay_for(bits) == 0x3f00_0000
            &&& negative && 0 < magnitude <= 0x7f80_0000 ==> decay_for(bits) == 0
            &&& !negative && 0x3f80_0000 < magnitude <= 0x7f80_0000 ==> decay_for(bits) == 0x3f80_0000
            &&& !negative && magnitude <= 0x3f80_0000 ==> decay_for(bits) == bits
            &&& magnitude == 0 ==> decay_for(bits) == bits
        }),
        forall|knobs: Knobs|
            (#[trigger] knobs.background_decay) == Some(bits) ==> knobs.background_update().decay == Some(
                decay_for(bits),
            ),
{
}

/// Of two numbers from zero up, the larger one has no smaller decay.
pub proof fn law_decay_is_monotone(small: u32, large: u32)
    requires
        small <= large <= 0x7f80_0000,
    ensures
        decay_for(small) <= decay_for(large) <= 0x3f80_0000,
{
}

/// An interval can be as long as a clock of seconds in a 64-bit word and nanoseconds can tell.
pub proof fn law_longest_interval()
    ensures
        FOREVER == u64::MAX as int * 1_000_000_000 + 999_999_999,
{
}

} // verus!
