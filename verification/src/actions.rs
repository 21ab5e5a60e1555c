//! The triggered action queue: matched recipes wait out a debounce window.
use vstd::prelude::*;

verus! {

/// Debounce window of a recipe with more than one input.
pub const DEFAULT_DELAY_US: u64 = 5_000_000;

/// How often a proposal rejected for clock drift is sent again.
pub const MAX_TIME_DRIFT_RETRIES: u32 = 3;

/// Padding over the reported gap when a drifted proposal is rescheduled.
pub const TIME_DRIFT_RETRY_PAD_US: u64 = 250_000;

/// Card ids per iterator.
pub open spec fn deep(bindings: Seq<Vec<u32>>) -> Seq<Seq<u32>> {
    bindings.map_values(|b: Vec<u32>| b@)
}

/// Whether two lists of bindings are the same.
pub fn same_bindings(a: &Vec<Vec<u32>>, b: &Vec<Vec<u32>>) -> (same: bool)
    ensures
        same == (deep(a@) == deep(b@)),
{
    if a.len() != b.len() {
        assert(deep(a@).len() != deep(b@).len());
        return false;
    }
    let n: usize = a.len();
    let mut i: usize = 0;
    while i < n
        invariant
            n == a@.len(),
            n == b@.len(),
            i <= n,
            forall|j: int| 0 <= j < i ==> (#[trigger] a@[j])@ == b@[j]@,
        decreases n - i,
    {
        if !same_ids(&a[i], &b[i]) {
            assert(deep(a@)[i as int] != deep(b@)[i as int]);
            return false;
        }
        i = i + 1;
    }
    assert(deep(a@) =~= deep(b@));
    true
}

/// Whether two lists of ids are the same.
pub fn same_ids(a: &Vec<u32>, b: &Vec<u32>) -> (same: bool)
    ensures
        same == (a@ == b@),
{
    if a.len() != b.len() {
        return false;
    }
    let n: usize = a.len();
    let mut i: usize = 0;
    while i < n
        invariant
            n == a@.len(),
            n == b@.len(),
            forall|j: int| 0 <= j < i ==> a@[j] == b@[j],
        decreases n - i,
    {
        if a[i] != b[i] {
            assert(a@[i as int] != b@[i as int]);
            return false;
        }
        i = i + 1;
    }
    assert(a@ =~= b@);
    true
}

/// A copy of a list of ids.
pub fn copy_ids(a: &Vec<u32>) -> (b: Vec<u32>)
    ensures
        b@ == a@,
{
    let n: usize = a.len();
    let mut b: Vec<u32> = Vec::new();
    let mut i: usize = 0;
    while i < n
        invariant
            n == a@.len(),
            i <= n,
            b@ == a@.take(i as int),
        decreases n - i,
    {
        b.push(a[i]);
        assert(b@ =~= a@.take(i + 1));
        i = i + 1;
    }
    assert(a@.take(n as int) =~= a@);
    b
}

/// A copy of a list of bindings.
pub fn copy_bindings(a: &Vec<Vec<u32>>) -> (b: Vec<Vec<u32>>)
    ensures
        deep(b@) == deep(a@),
{
    let n: usize = a.len();
    let mut b: Vec<Vec<u32>> = Vec::new();
    let mut i: usize = 0;
    while i < n
        invariant
            n == a@.len(),
            i <= n,
            b@.len() == i,
            forall|j: int| 0 <= j < i ==> (#[trigger] b@[j])@ == a@[j]@,
        decreases n - i,
    {
        b.push(copy_ids(&a[i]));
        i = i + 1;
    }
    assert(deep(b@) =~= deep(a@));
    b
}

/// One queued recipe. Times are local monotonic microseconds.
#[derive(Debug)]
pub struct QueuedAction {
    /// The soul whose view matched it.
    pub soul: u32,
    pub recipe: String,
    /// The root to propose with: zero when the root was folded into a branch.
    pub root: u32,
    pub bindings: Vec<Vec<u32>>,
    /// The cell of the chain root.
    pub surface: u8,
    pub macro_zone: u64,
    pub micro_location: u32,
    /// When the debounce timer last started.
    pub scheduled_at: u64,
    /// Debounce window; zero fires at once.
    pub delay_us: u64,
    /// Resubmits used after a clock drift.
    pub retry_count: u32,
    /// The call in flight, between the proposal and its reply.
    pub submit_cid: Option<u32>,
}

/// A queued recipe, as values.
pub ghost struct ActionView {
    pub soul: u32,
    pub recipe: Seq<char>,
    pub root: u32,
    pub bindings: Seq<Seq<u32>>,
    pub surface: u8,
    pub macro_zone: u64,
    pub micro_location: u32,
    pub scheduled_at: u64,
    pub delay_us: u64,
    pub retry_count: u32,
    pub submit_cid: Option<u32>,
}

impl View for QueuedAction {
    type V = ActionView;

    open spec fn view(&self) -> ActionView {
        ActionView {
            soul: self.soul,
            recipe: self.recipe@,
            root: self.root,
            bindings: deep(self.bindings@),
            surface: self.surface,
            macro_zone: self.macro_zone,
            micro_location: self.micro_location,
            scheduled_at: self.scheduled_at,
            delay_us: self.delay_us,
            retry_count: self.retry_count,
            submit_cid: self.submit_cid,
        }
    }
}

impl ActionView {
    /// Not in flight, and the window has elapsed.
    pub open spec fn ready(self, perf_us: u64) -> bool {
        self.submit_cid is None && perf_us >= self.scheduled_at + self.delay_us
    }
}

impl QueuedAction {
    /// Not in flight, and the window has elapsed.
    pub open spec fn is_ready(&self, perf_us: u64) -> bool {
        self.submit_cid is None && perf_us >= self.scheduled_at + self.delay_us
    }

    pub fn ready(&self, perf_us: u64) -> (b: bool)
        ensures
            b == self.is_ready(perf_us),
    {
        self.submit_cid.is_none() && perf_us >= self.scheduled_at && perf_us - self.scheduled_at
            >= self.delay_us
    }

    /// The same recipe with the same bindings.
    pub open spec fn is_same(&self, recipe: Seq<char>, bindings: Seq<Seq<u32>>) -> bool {
        self.recipe@ == recipe && deep(self.bindings@) == bindings
    }

    pub fn same_as(&self, recipe: &str, bindings: &Vec<Vec<u32>>) -> (b: bool)
        ensures
            b == self.is_same(recipe@, deep(bindings@)),
    {
        let name: String = recipe.to_owned();
        self.recipe == name && same_bindings(&self.bindings, bindings)
    }
}

/// An action in flight never fires again.
pub proof fn law_in_flight_never_ready(a: QueuedAction, perf_us: u64)
    requires
        a.submit_cid is Some,
    ensures
        !a.is_ready(perf_us),
{
}

/// Once its window has elapsed an action stays ready.
pub proof fn law_ready_stays(a: QueuedAction, earlier: u64, later: u64)
    requires
        earlier <= later,
        a.is_ready(earlier),
    ensures
        a.is_ready(later),
{
}

} // verus!
