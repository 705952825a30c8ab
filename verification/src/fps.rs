use vstd::prelude::*;

verus! {

/// An artificial limit on the number of frames presented per second.
#[derive(Copy, Clone, Debug, PartialEq, Eq, Hash)]
pub struct FpsLimit(Option<u32>);

impl FpsLimit {
    /// A limit is never zero frames per second.
    #[verifier::type_invariant]
    spec fn nonzero(&self) -> bool {
        self.0 matches Some(v) ==> v > 0
    }

    /// The limit in frames per second, or `None` for no limit.
    pub closed spec fn limit(&self) -> Option<u32> {
        self.0
    }

    /// No limit: frames are presented as soon as they are ready. This is the default.
    pub fn unlimited() -> (r: Self)
        ensures
            r.limit() is None,
    {
        Self(None)
    }

    /// A limit of `limit` frames per second; faster rendering is delayed before presenting.
    pub fn limited(limit: u32) -> (r: Self)
        requires
            limit > 0,
        ensures
            r.limit() == Some(limit),
    {
        Self(Some(limit))
    }
}

impl Default for FpsLimit {
    fn default() -> (r: Self)
        ensures
            r.limit() is None,
    {
        Self(None)
    }
}

/// The number of nanoseconds in a second.
pub const NANOS_PER_SEC: u64 = 1_000_000_000;

/// Paces frames to an [`FpsLimit`].
#[derive(Clone, Debug)]
pub struct FpsLimiter {
    timestep: Option<u64>,
}

impl FpsLimiter {
    /// The time between frames in nanoseconds, or `None` without a limit.
    pub closed spec fn timestep_spec(&self) -> Option<u64> {
        self.timestep
    }

    /// Creates a limiter whose timestep is a second divided by the limit, in whole
    /// nanoseconds.
    pub fn new(limit: FpsLimit) -> (r: Self)
        ensures
            r.timestep_spec() == match limit.limit() {
                Some(v) => Some((NANOS_PER_SEC / v as u64) as u64),
                None => None,
            },
    {
        proof {
            use_type_invariant(&limit);
        }
        let timestep = match limit.0 {
            Some(v) => Some(NANOS_PER_SEC / v as u64),
            None => None,
        };
        Self { timestep }
    }

    /// The time between frames in nanoseconds, or `None` without a limit.
    pub fn timestep(&self) -> (r: Option<u64>)
        ensures
            r == self.timestep_spec(),
    {
        self.timestep
    }

    /// How long to wait before presenting, given the nanoseconds elapsed since the last
    /// frame was due: the rest of the timestep, or nothing once it has passed.
    pub fn wait_nanos(&self, elapsed: u64) -> (r: u64)
        ensures
            r == match self.timestep_spec() {
                Some(t) => if elapsed < t {
                    (t - elapsed) as u64
                } else {
                    0
                },
                None => 0,
            },
    {
        match self.timestep {
            Some(t) => if elapsed < t {
                t - elapsed
            } else {
                0
            },
            None => 0,
        }
    }
}

} // verus!
