//! Mixture-of-experts routing: the router's configuration, its errors, and
//! the capacity rule that turns each token's ranked experts into expert
//! slots. Ranking experts by their logits and computing the gates are float
//! work done by the caller; what is decided here is which token gets which
//! slot of which expert, and what happens when an expert is full.

use vstd::prelude::*;
use crate::text::{dec, join2, push_str, push_u64, string_from};

verus! {

pub const MOE_ROUTER_SCHEMA_VERSION: u32 = 1;


#[derive(Clone, Copy, Debug, PartialEq, Eq, Structural)]
pub enum OverflowPolicy {
    Reject,
    DenseFallback,
}

impl OverflowPolicy {
    pub open spec fn spec_name(self) -> Seq<char> {
        match self {
            OverflowPolicy::Reject => "reject"@,
            OverflowPolicy::DenseFallback => "dense-fallback"@,
        }
    }

    pub fn as_str(self) -> (r: &'static str)
        ensures
            r@ == self.spec_name(),
    {
        match self {
            OverflowPolicy::Reject => "reject",
            OverflowPolicy::DenseFallback => "dense-fallback",
        }
    }
}

#[derive(Clone, Copy, Debug, PartialEq, Eq)]
pub struct MoeRouterConfig {
    pub experts: usize,
    pub top_k: usize,
    pub capacity: usize,
    pub overflow_policy: OverflowPolicy,
}

#[derive(Clone, Debug, PartialEq, Eq)]
pub enum MoeError {
    InvalidConfig(&'static str),
    InvalidWidth,
    SizeOverflow,
    LengthMismatch { what: &'static str, expected: usize, actual: usize },
    NonFiniteLogit { token: usize, expert: usize },
    InvalidGateNormalization { token: usize },
    CapacityExceeded { token: usize, expert: usize, capacity: usize },
    MissingDenseFallback,
    ExpertOutputLength { expert: usize, expected: usize, actual: usize },
    PlanInvariant(&'static str),
}

impl MoeRouterConfig {
    /// The reason a configuration is refused, checked in this order.
    pub open spec fn spec_problem(self) -> Option<Seq<char>> {
        if self.experts == 0 {
            Some("experts must be > 0"@)
        } else if self.top_k == 0 || self.top_k > self.experts {
            Some("top_k must be in 1..=experts"@)
        } else if self.capacity == 0 {
            Some("capacity must be > 0"@)
        } else {
            None
        }
    }

    pub fn validate(self) -> (r: Result<MoeRouterConfig, MoeError>)
        ensures
            self.spec_problem() is None ==> r == Ok::<MoeRouterConfig, MoeError>(self),
            self.spec_problem() matches Some(m) ==> (r matches Err(MoeError::InvalidConfig(t)) && t@ == m),
    {
        if self.experts == 0 {
            return Err(MoeError::InvalidConfig("experts must be > 0"));
        }
        if self.top_k == 0 || self.top_k > self.experts {
            return Err(MoeError::InvalidConfig("top_k must be in 1..=experts"));
        }
        if self.capacity == 0 {
            return Err(MoeError::InvalidConfig("capacity must be > 0"));
        }
        Ok(self)
    }
}

impl MoeError {
    pub open spec fn spec_message(self) -> Seq<char> {
        match self {
            MoeError::InvalidConfig(m) => "invalid MoE router config: "@ + m@,
            MoeError::InvalidWidth => "MoE dispatch width must be > 0"@,
            MoeError::SizeOverflow => "MoE size arithmetic overflow"@,
            MoeError::LengthMismatch { what, expected, actual } =>
                what@ + " length mismatch: expected "@ + dec(expected as nat) + ", got "@ + dec(actual as nat),
            MoeError::NonFiniteLogit { token, expert } =>
                "non-finite router logit at token "@ + dec(token as nat) + ", expert "@ + dec(expert as nat),
            MoeError::InvalidGateNormalization { token } =>
                "invalid router gate normalization at token "@ + dec(token as nat),
            MoeError::CapacityExceeded { token, expert, capacity } =>
                "expert capacity exceeded at token "@ + dec(token as nat) + ", expert "@ + dec(expert as nat)
                    + ", capacity "@ + dec(capacity as nat),
            MoeError::MissingDenseFallback => "dense fallback outputs are required"@,
            MoeError::ExpertOutputLength { expert, expected, actual } =>
                "expert "@ + dec(expert as nat) + " output length mismatch: expected "@ + dec(expected as nat)
                    + ", got "@ + dec(actual as nat),
            MoeError::PlanInvariant(m) => "invalid MoE route plan: "@ + m@,
        }
    }

    /// The error's text (its `Display`).
    pub fn message(&self) -> (r: String)
        ensures
            r@ == self.spec_message(),
    {
        match self {
            MoeError::InvalidConfig(m) => join2("invalid MoE router config: ", m),
            MoeError::InvalidWidth => string_from("MoE dispatch width must be > 0"),
            MoeError::SizeOverflow => string_from("MoE size arithmetic overflow"),
            MoeError::LengthMismatch { what, expected, actual } => {
                let mut out = string_from(what);
                push_str(&mut out, " length mismatch: expected ");
                push_u64(&mut out, *expected as u64);
                push_str(&mut out, ", got ");
                push_u64(&mut out, *actual as u64);
                out
            },
            MoeError::NonFiniteLogit { token, expert } => {
                let mut out = string_from("non-finite router logit at token ");
                push_u64(&mut out, *token as u64);
                push_str(&mut out, ", expert ");
                push_u64(&mut out, *expert as u64);
                out
            },
            MoeError::InvalidGateNormalization { token } => {
                let mut out = string_from("invalid router gate normalization at token ");
                push_u64(&mut out, *token as u64);
                out
            },
            MoeError::CapacityExceeded { token, expert, capacity } => {
                let mut out = string_from("expert capacity exceeded at token ");
                push_u64(&mut out, *token as u64);
                push_str(&mut out, ", expert ");
                push_u64(&mut out, *expert as u64);
                push_str(&mut out, ", capacity ");
                push_u64(&mut out, *capacity as u64);
                out
            },
            MoeError::MissingDenseFallback => string_from("dense fallback outputs are required"),
            MoeError::ExpertOutputLength { expert, expected, actual } => {
                let mut out = string_from("expert ");
                push_u64(&mut out, *expert as u64);
                push_str(&mut out, " output length mismatch: expected ");
                push_u64(&mut out, *expected as u64);
                push_str(&mut out, ", got ");
                push_u64(&mut out, *actual as u64);
                out
            },
            MoeError::PlanInvariant(m) => join2("invalid MoE route plan: ", m),
        }
    }
}

/// One token's place in a route plan: its experts in rank order and the slot
/// it takes in each, or a dense fallback with no expert at all.
#[derive(Clone, Debug, PartialEq, Eq)]
pub struct SlotRoute {
    pub token: usize,
    pub experts: Vec<usize>,
    pub slots: Vec<usize>,
    pub dense_fallback: bool,
}

/// Every token's route and the final load of each expert.
#[derive(Clone, Debug, PartialEq, Eq)]
pub struct SlotPlan {
    pub routes: Vec<SlotRoute>,
    pub expert_loads: Vec<usize>,
}

/// A token's selection: `top_k` distinct experts, each below `experts`.
pub open spec fn selection_ok(sel: Seq<usize>, experts: usize, top_k: usize) -> bool {
    &&& sel.len() == top_k
    &&& forall|i: int| 0 <= i < sel.len() ==> #[trigger] sel[i] < experts
    &&& forall|i: int, j: int| 0 <= i < j < sel.len() ==> sel[i] != sel[j]
}

/// Some selected expert is already full.
pub open spec fn overflows(sel: Seq<usize>, loads: Seq<usize>, capacity: usize) -> bool {
    exists|i: int| 0 <= i < sel.len() && #[trigger] loads[sel[i] as int] >= capacity
}

/// `i` is the first position in `sel` whose expert is full.
pub open spec fn first_full(sel: Seq<usize>, loads: Seq<usize>, capacity: usize, i: int) -> bool {
    &&& 0 <= i < sel.len()
    &&& loads[sel[i] as int] >= capacity
    &&& forall|j: int| 0 <= j < i ==> #[trigger] loads[sel[j] as int] < capacity
}

/// The loads after each selected expert takes one more token.
pub open spec fn bumped(loads: Seq<usize>, sel: Seq<usize>) -> Seq<usize> {
    Seq::new(loads.len(), |e: int| if sel.contains(e as usize) { (loads[e] + 1) as usize } else { loads[e] })
}

/// The expert loads before token `t` is routed (tokens that fall back take
/// no slot).
pub open spec fn loads_before(sels: Seq<Seq<usize>>, t: nat, experts: usize, capacity: usize) -> Seq<usize>
    decreases t,
{
    if t == 0 {
        Seq::new(experts as nat, |e: int| 0usize)
    } else {
        let prev = loads_before(sels, (t - 1) as nat, experts, capacity);
        let sel = sels[t - 1];
        if overflows(sel, prev, capacity) { prev } else { bumped(prev, sel) }
    }
}

/// Token `t` meets a full expert.
pub open spec fn token_overflows(sels: Seq<Seq<usize>>, t: nat, experts: usize, capacity: usize) -> bool {
    overflows(sels[t as int], loads_before(sels, t, experts, capacity), capacity)
}

/// What the route of token `t` holds when the plan is accepted.
pub open spec fn route_matches(r: SlotRoute, sels: Seq<Seq<usize>>, t: nat, experts: usize, capacity: usize) -> bool {
    let loads = loads_before(sels, t, experts, capacity);
    &&& r.token == t
    &&& if token_overflows(sels, t, experts, capacity) {
        r.dense_fallback && r.experts@.len() == 0 && r.slots@.len() == 0
    } else {
        &&& !r.dense_fallback
        &&& r.experts@ == sels[t as int]
        &&& r.slots@.len() == sels[t as int].len()
        &&& forall|i: int| 0 <= i < r.slots@.len() ==> #[trigger] r.slots@[i] == loads[sels[t as int][i] as int]
    }
}

pub open spec fn all_selections_ok(sels: Seq<Seq<usize>>, experts: usize, top_k: usize) -> bool {
    forall|t: int| 0 <= t < sels.len() ==> selection_ok(#[trigger] sels[t], experts, top_k)
}

/// A load never passes the capacity.
pub open spec fn within_capacity(loads: Seq<usize>, capacity: usize) -> bool {
    forall|e: int| 0 <= e < loads.len() ==> #[trigger] loads[e] <= capacity
}

/// No expert is ever filled past its capacity, whatever the selections.
pub proof fn lemma_loads_within_capacity(sels: Seq<Seq<usize>>, t: nat, experts: usize, capacity: usize, top_k: usize)
    requires
        t <= sels.len(),
        all_selections_ok(sels, experts, top_k),
    ensures
        loads_before(sels, t, experts, capacity).len() == experts,
        within_capacity(loads_before(sels, t, experts, capacity), capacity),
    decreases t,
{
    if t > 0 {
        lemma_loads_within_capacity(sels, (t - 1) as nat, experts, capacity, top_k);
        let prev = loads_before(sels, (t - 1) as nat, experts, capacity);
        let sel = sels[t - 1];
        assert(selection_ok(sels[t - 1], experts, top_k));
        if !overflows(sel, prev, capacity) {
            let next = bumped(prev, sel);
            assert forall|e: int| 0 <= e < next.len() implies #[trigger] next[e] <= capacity by {
                if sel.contains(e as usize) {
                    let i = choose|i: int| 0 <= i < sel.len() && sel[i] == e as usize;
                    assert(prev[sel[i] as int] < capacity);
                }
            }
        }
    }
}

/// The deterministic top-k router: experts are ranked by the caller and
/// slots are handed out in token order.
#[derive(Clone, Copy, Debug, Default, PartialEq, Eq)]
pub struct DeterministicTopKRouter;

impl DeterministicTopKRouter {
    /// Routes each token to the experts of its selection (ranked by the
    /// caller, best first). When a selected expert is full, the token is
    /// refused (`Reject`, reporting the first full expert of the first such
    /// token) or handed to the dense path (`DenseFallback`); no token is ever
    /// dropped. Each expert's slots are handed out 0, 1, 2, ... in token order.
    pub fn assign_slots(&self, selections: &Vec<Vec<usize>>, config: MoeRouterConfig) -> (r: Result<SlotPlan, MoeError>)
        requires
            forall|t: int| 0 <= t < selections@.len() ==> selection_ok(#[trigger] selections@[t]@, config.experts, config.top_k),
        ensures
            config.spec_problem() matches Some(m) ==> (r matches Err(MoeError::InvalidConfig(x)) && x@ == m),
            ({
                let sels = selections@.map_values(|s: Vec<usize>| s@);
                let n = selections@.len();
                config.spec_problem() is None ==> {
                    &&& (r is Ok <==> !(config.overflow_policy == OverflowPolicy::Reject
                        && exists|t: nat| t < n && #[trigger] token_overflows(sels, t, config.experts, config.capacity)))
                    &&& (r matches Ok(plan) ==> {
                        &&& plan.routes@.len() == n
                        &&& plan.expert_loads@ == loads_before(sels, n as nat, config.experts, config.capacity)
                        &&& within_capacity(plan.expert_loads@, config.capacity)
                        &&& forall|t: int| 0 <= t < n ==> route_matches(#[trigger] plan.routes@[t], sels, t as nat,
                            config.experts, config.capacity)
                    })
                    &&& (r is Err ==> exists|t: nat, i: int| {
                        &&& t < n
                        &&& token_overflows(sels, t, config.experts, config.capacity)
                        &&& (forall|u: nat| u < t ==> !#[trigger] token_overflows(sels, u, config.experts, config.capacity))
                        &&& #[trigger] first_full(sels[t as int], loads_before(sels, t, config.experts, config.capacity), config.capacity, i)
                        &&& r == Err::<SlotPlan, MoeError>(MoeError::CapacityExceeded {
                            token: t as usize, expert: sels[t as int][i], capacity: config.capacity })
                    })
                }
            }),
    {
        match config.validate() {
            Ok(_) => {},
            Err(e) => {
                return Err(e);
            },
        }
        let ghost sels = selections@.map_values(|s: Vec<usize>| s@);
        let n = selections.len();
        let mut loads: Vec<usize> = Vec::new();
        let mut e: usize = 0;
        while e < config.experts
            invariant
                e <= config.experts,
                loads@.len() == e,
                forall|j: int| 0 <= j < e ==> #[trigger] loads@[j] == 0,
            decreases config.experts - e,
        {
            loads.push(0);
            e = e + 1;
        }
        assert(loads@ == loads_before(sels, 0, config.experts, config.capacity));
        let mut routes: Vec<SlotRoute> = Vec::new();
        let mut t: usize = 0;
        while t < n
            invariant
                n == selections@.len(),
                sels == selections@.map_values(|s: Vec<usize>| s@),
                config.spec_problem() is None,
                all_selections_ok(sels, config.experts, config.top_k),
                t <= n,
                loads@ == loads_before(sels, t as nat, config.experts, config.capacity),
                routes@.len() == t,
                forall|u: int| 0 <= u < t ==> route_matches(#[trigger] routes@[u], sels, u as nat,
                    config.experts, config.capacity),
                config.overflow_policy == OverflowPolicy::Reject ==>
                    forall|u: nat| u < t ==> !#[trigger] token_overflows(sels, u, config.experts, config.capacity),
            decreases n - t,
        {
            proof {
                lemma_loads_within_capacity(sels, t as nat, config.experts, config.capacity, config.top_k);
                assert(selection_ok(sels[t as int], config.experts, config.top_k));
            }
            let sel = &selections[t];
            assert(sel@ == sels[t as int]);
            // The first selected expert that is already full, if any.
            let mut i: usize = 0;
            let mut full: Option<usize> = None;
            while i < sel.len()
                invariant
                    sel@ == sels[t as int],
                    selection_ok(sel@, config.experts, config.top_k),
                    loads@.len() == config.experts,
                    i <= sel.len(),
                    full is None ==> forall|j: int| 0 <= j < i ==> #[trigger] loads@[sel@[j] as int] < config.capacity,
                    full matches Some(k) ==> first_full(sel@, loads@, config.capacity, k as int),
                decreases sel.len() - i,
            {
                if full.is_none() && loads[sel[i]] >= config.capacity {
                    full = Some(i);
                }
                i = i + 1;
            }
            match full {
                Some(k) => {
                    assert(token_overflows(sels, t as nat, config.experts, config.capacity));
                    match config.overflow_policy {
                        OverflowPolicy::Reject => {
                            let expert = sel[k];
                            assert(first_full(sels[t as int], loads_before(sels, t as nat, config.experts, config.capacity),
                                config.capacity, k as int));
                            return Err(MoeError::CapacityExceeded { token: t, expert, capacity: config.capacity });
                        },
                        OverflowPolicy::DenseFallback => {
                            routes.push(SlotRoute { token: t, experts: Vec::new(), slots: Vec::new(), dense_fallback: true });
                            assert(loads_before(sels, (t + 1) as nat, config.experts, config.capacity) == loads@);
                        },
                    }
                },
                None => {
                    assert(!token_overflows(sels, t as nat, config.experts, config.capacity));
                    let ghost before = loads@;
                    let mut experts: Vec<usize> = Vec::new();
                    let mut slots: Vec<usize> = Vec::new();
                    let mut j: usize = 0;
                    while j < sel.len()
                        invariant
                            sel@ == sels[t as int],
                            selection_ok(sel@, config.experts, config.top_k),
                            before.len() == config.experts,
                            within_capacity(before, config.capacity),
                            forall|m: int| 0 <= m < sel@.len() ==> #[trigger] before[sel@[m] as int] < config.capacity,
                            j <= sel.len(),
                            loads@.len() == config.experts,
                            experts@ == sel@.subrange(0, j as int),
                            slots@.len() == j,
                            forall|m: int| 0 <= m < j ==> #[trigger] slots@[m] == before[sel@[m] as int],
                            forall|x: int| 0 <= x < loads@.len() ==> #[trigger] loads@[x] == (
                                if sel@.subrange(0, j as int).contains(x as usize) { before[x] + 1 } else { before[x] as int }),
                        decreases sel.len() - j,
                    {
                        let x = sel[j];
                        proof {
                            if sel@.subrange(0, j as int).contains(x) {
                                let m = choose|m: int| 0 <= m < j && sel@.subrange(0, j as int)[m] == x;
                                assert(sel@[m] == sel@[j as int]);
                            }
                        }
                        let slot = loads[x];
                        slots.push(slot);
                        experts.push(x);
                        loads.set(x, slot + 1);
                        proof {
                            assert(sel@.subrange(0, j + 1) == sel@.subrange(0, j as int).push(x));
                            assert forall|y: int| 0 <= y < loads@.len() implies #[trigger] loads@[y] == (
                                if sel@.subrange(0, j + 1).contains(y as usize) { before[y] + 1 } else { before[y] as int }) by {
                                if y != x as int {
                                    assert(sel@.subrange(0, j + 1).contains(y as usize) == sel@.subrange(0, j as int).contains(y as usize));
                                } else {
                                    assert(sel@.subrange(0, j + 1)[j as int] == x);
                                }
                            }
                        }
                        j = j + 1;
                    }
                    proof {
                        assert(sel@.subrange(0, sel@.len() as int) == sel@);
                        assert(loads@ == bumped(before, sel@));
                    }
                    routes.push(SlotRoute { token: t, experts, slots, dense_fallback: false });
                },
            }
            t = t + 1;
        }
        proof {
            lemma_loads_within_capacity(sels, n as nat, config.experts, config.capacity, config.top_k);
        }
        Ok(SlotPlan { routes, expert_loads: loads })
    }
}

} // verus!
