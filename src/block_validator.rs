//! The event-driven validator: coalesces requests per candidate, counts outstanding fetches and
//! admits fetched transactions until each candidate reaches a verdict.

use vstd::prelude::*;
use crate::appendable_block::{AddError, AppendableBlock, AppendableBlockView};
use crate::keyed_counter::KeyedCounter;
use crate::types::{
    Approval, DeployConfig, DeployHash, DeployInfo, DeployOrTransferHash, DeployWithApprovals,
    copy_approvals, copy_bytes, typed_hash_eq,
};
use crate::validating_block::{Entry, EntryView, ValidatingBlock, ValidatingBlockView, entries_view};

verus! {

/// What the validator asks its surroundings to do.
#[derive(Clone, Copy, Debug, PartialEq, Eq)]
pub enum Effect {
    /// Deliver the verdict to a waiting responder.
    Respond { responder: u64, valid: bool },
    /// Fetch a transaction, with the requesting peer as a hint.
    Fetch { dt_hash: DeployOrTransferHash, peer: u64 },
    /// A candidate with the given timestamp could not admit a found transaction, for the
    /// reason given; its responders are answered `false` right after.
    Rejected { block_timestamp: u64, dt_hash: DeployOrTransferHash, reason: AddError },
}

/// What the validator reacts to.
#[derive(Clone, Debug)]
pub enum Event {
    /// Validate `block` on behalf of `sender`; answer on `responder`.
    Request { block: ValidatingBlock, sender: u64, responder: u64 },
    /// A fetch delivered a usable transaction.
    DeployFound { dt_hash: DeployOrTransferHash, approvals: Vec<Approval>, deploy_info: DeployInfo },
    /// A fetch timed out or was exhausted.
    DeployMissing(DeployOrTransferHash),
    /// A fetch delivered a payload that cannot serve as the requested transaction.
    CannotConvertDeploy(DeployOrTransferHash),
}

/// The validation in progress of one candidate, as mathematical values.
pub struct StateView {
    pub appendable: AppendableBlockView,
    pub missing: Seq<EntryView>,
    pub responders: Seq<u64>,
}

/// No typed hash occurs twice.
pub open spec fn typed_distinct(m: Seq<EntryView>) -> bool {
    forall|i: int, j: int|
        0 <= i < m.len() && 0 <= j < m.len() && i != j ==> m[i].0 != m[j].0
}

pub open spec fn has_entry(m: Seq<EntryView>, h: DeployOrTransferHash) -> bool {
    exists|i: int| 0 <= i < m.len() && m[i].0 == h
}

pub open spec fn index_of(m: Seq<EntryView>, h: DeployOrTransferHash) -> int {
    choose|i: int| 0 <= i < m.len() && m[i].0 == h
}

/// How many entries of `m` have the role-erased hash `k`.
pub open spec fn occurrences(m: Seq<EntryView>, k: DeployHash) -> nat
    decreases m.len(),
{
    if m.len() == 0 {
        0
    } else {
        occurrences(m.drop_last(), k) + if m.last().0.spec_hash() == k {
            1nat
        } else {
            0nat
        }
    }
}

/// One fetch per entry, in order.
pub open spec fn fetches(m: Seq<EntryView>, sender: u64) -> Seq<Effect> {
    m.map_values(|e: EntryView| Effect::Fetch { dt_hash: e.0, peer: sender })
}

/// The verdict delivered to each responder, in order.
pub open spec fn responses(rs: Seq<u64>, valid: bool) -> Seq<Effect> {
    rs.map_values(|r: u64| Effect::Respond { responder: r, valid })
}

/// A fresh validation state for a candidate.
pub open spec fn fresh_state(
    config: DeployConfig,
    chain_name: Seq<u8>,
    v: ValidatingBlockView,
    responder: u64,
) -> StateView {
    StateView {
        appendable: AppendableBlockView {
            config,
            timestamp: v.timestamp(),
            chain_name,
            deploys: Seq::empty(),
            transfers: Seq::empty(),
            total_size: 0,
            total_gas: 0,
            total_approvals: 0,
        },
        missing: v.entries(),
        responders: seq![responder],
    }
}

/// The registry after enrolling `responder` for `v`: on the existing state for the same block,
/// or on a fresh one appended at the end.
pub open spec fn requested_states(
    states: Seq<(ValidatingBlockView, StateView)>,
    config: DeployConfig,
    chain_name: Seq<u8>,
    v: ValidatingBlockView,
    responder: u64,
) -> Seq<(ValidatingBlockView, StateView)> {
    if exists|i: int| 0 <= i < states.len() && states[i].0 == v {
        let i = choose|i: int| 0 <= i < states.len() && states[i].0 == v;
        states.update(
            i,
            (v, StateView { responders: states[i].1.responders.push(responder), ..states[i].1 }),
        )
    } else {
        states.push((v, fresh_state(config, chain_name, v, responder)))
    }
}

/// An outcome that each validation state is checked against.
pub enum Outcome {
    /// The transaction arrived with these network approvals and this info.
    Found(DeployOrTransferHash, Seq<Approval>, DeployInfo),
    /// The transaction can no longer be had.
    Lost(DeployOrTransferHash),
}

/// The approvals admitted with a found transaction: the authoritative ones if the candidate
/// carries them, else those from the network.
pub open spec fn chosen_approvals(s: StateView, dt: DeployOrTransferHash, net: Seq<Approval>) -> Seq<
    Approval,
> {
    match s.missing[index_of(s.missing, dt)].1 {
        Some(a) => a,
        None => net,
    }
}

/// The verdict an outcome brings a state to: `None` while it stays open.
pub open spec fn verdict(o: Outcome, s: StateView) -> Option<bool> {
    match o {
        Outcome::Found(dt, net, info) => {
            if !has_entry(s.missing, dt) {
                None
            } else if s.appendable.rejection(
                dt is Transfer,
                (dt.spec_hash(), chosen_approvals(s, dt, net)),
                info,
            ) is Some {
                Some(false)
            } else if s.missing.len() == 1 {
                Some(true)
            } else {
                None
            }
        },
        Outcome::Lost(dt) => {
            if has_entry(s.missing, dt) {
                Some(false)
            } else {
                None
            }
        },
    }
}

/// The report of an admission that an outcome fails in a state, if it fails one.
pub open spec fn notes(o: Outcome, s: StateView) -> Seq<Effect> {
    match o {
        Outcome::Found(dt, net, info) => {
            if has_entry(s.missing, dt) {
                match s.appendable.rejection(
                    dt is Transfer,
                    (dt.spec_hash(), chosen_approvals(s, dt, net)),
                    info,
                ) {
                    Some(reason) => seq![
                        Effect::Rejected {
                            block_timestamp: s.appendable.timestamp,
                            dt_hash: dt,
                            reason,
                        },
                    ],
                    None => Seq::empty(),
                }
            } else {
                Seq::empty()
            }
        },
        Outcome::Lost(_) => Seq::empty(),
    }
}

/// The state after an outcome that leaves it open.
pub open spec fn after(o: Outcome, s: StateView) -> StateView {
    match o {
        Outcome::Found(dt, net, info) => {
            if !has_entry(s.missing, dt) {
                s
            } else {
                StateView {
                    appendable: s.appendable.appended(
                        dt is Transfer,
                        (dt.spec_hash(), chosen_approvals(s, dt, net)),
                        info,
                    ),
                    missing: s.missing.remove(index_of(s.missing, dt)),
                    responders: s.responders,
                }
            }
        },
        Outcome::Lost(_) => s,
    }
}

/// The states an outcome leaves open, updated, in their order.
pub open spec fn kept_states(states: Seq<(ValidatingBlockView, StateView)>, o: Outcome) -> Seq<
    (ValidatingBlockView, StateView),
>
    decreases states.len(),
{
    if states.len() == 0 {
        Seq::empty()
    } else {
        let prev = kept_states(states.drop_last(), o);
        let e = states.last();
        if verdict(o, e.1) is None {
            prev.push((e.0, after(o, e.1)))
        } else {
            prev
        }
    }
}

/// The answers an outcome delivers: for each state it closes, its verdict to each responder.
pub open spec fn swept_effects(states: Seq<(ValidatingBlockView, StateView)>, o: Outcome) -> Seq<
    Effect,
>
    decreases states.len(),
{
    if states.len() == 0 {
        Seq::empty()
    } else {
        let prev = swept_effects(states.drop_last(), o);
        let e = states.last();
        match verdict(o, e.1) {
            Some(b) => prev + notes(o, e.1) + responses(e.1.responders, b),
            None => prev,
        }
    }
}

/// State of the validation of one candidate.
pub struct BlockValidationState {
    appendable_block: AppendableBlock,
    missing_deploys: Vec<Entry>,
    responders: Vec<u64>,
}

impl BlockValidationState {
    pub closed spec fn view(&self) -> StateView {
        StateView {
            appendable: self.appendable_block@,
            missing: entries_view(self.missing_deploys@),
            responders: self.responders@,
        }
    }

    pub closed spec fn wf(&self) -> bool {
        &&& self.appendable_block.wf()
        &&& self.missing_deploys@.len() > 0
        &&& typed_distinct(entries_view(self.missing_deploys@))
    }

    /// Appends the verdict for every responder to `effects`, and forgets the responders.
    fn respond(&mut self, effects: &mut Vec<Effect>, valid: bool)
        ensures
            final(effects)@ == old(effects)@ + responses(old(self).responders@, valid),
            final(self).responders@.len() == 0,
            final(self).appendable_block == old(self).appendable_block,
            final(self).missing_deploys == old(self).missing_deploys,
    {
        let ghost start = effects@;
        let ghost rs = self.responders@;
        let mut i: usize = 0;
        while i < self.responders.len()
            invariant
                0 <= i <= self.responders@.len(),
                self.responders@ == rs,
                effects@ == start + responses(rs.subrange(0, i as int), valid),
            decreases self.responders@.len() - i,
        {
            effects.push(Effect::Respond { responder: self.responders[i], valid });
            i = i + 1;
            assert(responses(rs.subrange(0, i as int), valid) =~= responses(
                rs.subrange(0, i - 1),
                valid,
            ).push(Effect::Respond { responder: rs[i - 1], valid }));
        }
        assert(rs.subrange(0, rs.len() as int) =~= rs);
        self.responders = Vec::new();
    }
}

pub open spec fn states_view(s: Seq<(ValidatingBlock, BlockValidationState)>) -> Seq<
    (ValidatingBlockView, StateView),
> {
    s.map_values(|e: (ValidatingBlock, BlockValidationState)| (e.0@, e.1@))
}

proof fn lemma_occurrences_bound(m: Seq<EntryView>, k: DeployHash)
    ensures
        occurrences(m, k) <= m.len(),
    decreases m.len(),
{
    if m.len() > 0 {
        lemma_occurrences_bound(m.drop_last(), k);
    }
}

/// Finds the entry for a typed hash.
fn find_entry(m: &Vec<Entry>, h: &DeployOrTransferHash) -> (r: Option<usize>)
    ensures
        match r {
            Some(i) => i < m@.len() && m@[i as int].0 == *h,
            None => !has_entry(entries_view(m@), *h),
        },
{
    let mut i: usize = 0;
    while i < m.len()
        invariant
            0 <= i <= m@.len(),
            forall|j: int| 0 <= j < i ==> m@[j].0 != *h,
        decreases m@.len() - i,
    {
        if typed_hash_eq(&m[i].0, h) {
            return Some(i);
        }
        i = i + 1;
    }
    assert(!has_entry(entries_view(m@), *h)) by {
        assert forall|j: int| 0 <= j < m@.len() implies entries_view(m@)[j].0 != *h by {
            assert(entries_view(m@)[j] == crate::validating_block::entry_view(m@[j]));
        }
    }
    None
}

/// Whether no typed hash occurs twice.
fn all_distinct(m: &Vec<Entry>) -> (r: bool)
    ensures
        r == typed_distinct(entries_view(m@)),
{
    let ghost mv = entries_view(m@);
    let mut i: usize = 0;
    while i < m.len()
        invariant
            0 <= i <= m@.len(),
            mv == entries_view(m@),
            forall|a: int, b: int| 0 <= a < i && 0 <= b < m@.len() && a != b ==> mv[a].0 != mv[b].0,
        decreases m@.len() - i,
    {
        let mut j: usize = 0;
        while j < m.len()
            invariant
                0 <= i < m@.len(),
                0 <= j <= m@.len(),
                mv == entries_view(m@),
                forall|a: int, b: int|
                    0 <= a < i && 0 <= b < m@.len() && a != b ==> mv[a].0 != mv[b].0,
                forall|b: int| 0 <= b < j && b != i ==> mv[i as int].0 != mv[b].0,
            decreases m@.len() - j,
        {
            if j != i && typed_hash_eq(&m[i].0, &m[j].0) {
                assert(mv[i as int].0 == mv[j as int].0);
                return false;
            }
            j = j + 1;
        }
        i = i + 1;
    }
    true
}


/// One step of a sweep keeps the kept blocks distinct and each one drawn from the swept prefix.
proof fn lemma_kept_blocks(
    orig: Seq<(ValidatingBlock, BlockValidationState)>,
    kept_before: Seq<(ValidatingBlock, BlockValidationState)>,
    kept: Seq<(ValidatingBlock, BlockValidationState)>,
    j: int,
)
    requires
        0 <= j < orig.len(),
        forall|i: int, k: int|
            0 <= i < orig.len() && 0 <= k < orig.len() && i != k ==> orig[i].0@ != orig[k].0@,
        forall|a: int|
            0 <= a < kept_before.len() ==> exists|b: int|
                0 <= b < j && (#[trigger] kept_before[a]).0@ == orig[b].0@,
        forall|a: int, c: int|
            0 <= a < kept_before.len() && 0 <= c < kept_before.len() && a != c ==> kept_before[a].0@
                != kept_before[c].0@,
        kept_before.len() <= kept.len() <= kept_before.len() + 1,
        forall|a: int| 0 <= a < kept_before.len() ==> kept[a] == kept_before[a],
        kept.len() > kept_before.len() ==> kept[kept_before.len() as int].0@ == orig[j].0@,
    ensures
        forall|a: int|
            0 <= a < kept.len() ==> exists|b: int| 0 <= b < j + 1 && (#[trigger] kept[a]).0@ == orig[b].0@,
        forall|a: int, c: int|
            0 <= a < kept.len() && 0 <= c < kept.len() && a != c ==> kept[a].0@ != kept[c].0@,
{
    assert forall|a: int| 0 <= a < kept.len() implies exists|b: int|
        0 <= b < j + 1 && (#[trigger] kept[a]).0@ == orig[b].0@ by {
        if a < kept_before.len() {
            assert(kept[a] == kept_before[a]);
            let b = choose|b: int| 0 <= b < j && kept_before[a].0@ == orig[b].0@;
            assert(0 <= b < j + 1 && kept[a].0@ == orig[b].0@);
        } else {
            assert(kept[a].0@ == orig[j].0@);
        }
    }
    assert forall|a: int, c: int|
        0 <= a < kept.len() && 0 <= c < kept.len() && a != c implies kept[a].0@ != kept[c].0@ by {
        if a < kept_before.len() && c < kept_before.len() {
            assert(kept[a] == kept_before[a]);
            assert(kept[c] == kept_before[c]);
        } else if a < kept_before.len() {
            assert(kept[a] == kept_before[a]);
            let b = choose|b: int| 0 <= b < j && kept_before[a].0@ == orig[b].0@;
        } else if c < kept_before.len() {
            assert(kept[c] == kept_before[c]);
            let b = choose|b: int| 0 <= b < j && kept_before[c].0@ == orig[b].0@;
        }
    }
}

/// The validator: the registry of candidates under validation and the outstanding fetch counts.
pub struct BlockValidator {
    deploy_config: DeployConfig,
    chain_name: Vec<u8>,
    validation_states: Vec<(ValidatingBlock, BlockValidationState)>,
    in_flight: KeyedCounter,
}

impl BlockValidator {
    /// The candidates under validation, each with its state, in order of arrival.
    pub closed spec fn states(&self) -> Seq<(ValidatingBlockView, StateView)> {
        states_view(self.validation_states@)
    }

    /// How many fetches of the role-erased hash `k` are outstanding.
    pub closed spec fn in_flight_count(&self, k: DeployHash) -> nat {
        self.in_flight.count(k)
    }

    pub closed spec fn config(&self) -> DeployConfig {
        self.deploy_config
    }

    pub closed spec fn chain_name(&self) -> Seq<u8> {
        self.chain_name@
    }

    /// No fetch is outstanding.
    pub closed spec fn quiescent(&self) -> bool {
        self.in_flight.is_empty()
    }

    /// Every state is open, lists each typed hash once and respects the limits, and no
    /// candidate has two states.
    pub closed spec fn wf(&self) -> bool {
        &&& self.in_flight.wf()
        &&& forall|i: int|
            0 <= i < self.validation_states@.len() ==> (#[trigger] self.validation_states@[i]).1.wf()
        &&& forall|i: int, j: int|
            0 <= i < self.validation_states@.len() && 0 <= j < self.validation_states@.len() && i
                != j ==> self.validation_states@[i].0@ != self.validation_states@[j].0@
    }

    /// A validator with no candidate and no outstanding fetch.
    pub fn new(deploy_config: DeployConfig, chain_name: Vec<u8>) -> (r: Self)
        ensures
            r.wf(),
            r.states().len() == 0,
            r.quiescent(),
            forall|k: DeployHash| r.in_flight_count(k) == 0,
            r.config() == deploy_config,
            r.chain_name() == chain_name@,
    {
        let r = BlockValidator {
            deploy_config,
            chain_name,
            validation_states: Vec::new(),
            in_flight: KeyedCounter::new(),
        };
        assert(r.states() =~= Seq::empty());
        r
    }

    /// The number of outstanding fetches of the role-erased hash `k`.
    pub fn in_flight(&self, k: &DeployHash) -> (r: u64)
        requires
            self.wf(),
        ensures
            r as nat == self.in_flight_count(*k),
    {
        self.in_flight.get(k)
    }

    /// The number of candidates under validation.
    pub fn pending_count(&self) -> (r: usize)
        ensures
            r == self.states().len(),
    {
        self.validation_states.len()
    }

    fn find_state(&self, block: &ValidatingBlock) -> (r: Option<usize>)
        ensures
            match r {
                Some(i) => i < self.states().len() && self.states()[i as int].0 == block@,
                None => forall|i: int| 0 <= i < self.states().len() ==> self.states()[i].0 != block@,
            },
    {
        let mut i: usize = 0;
        while i < self.validation_states.len()
            invariant
                0 <= i <= self.validation_states@.len(),
                forall|j: int| 0 <= j < i ==> self.validation_states@[j].0@ != block@,
            decreases self.validation_states@.len() - i,
        {
            if self.validation_states[i].0.same_block(block) {
                return Some(i);
            }
            i = i + 1;
        }
        None
    }

    /// Handles a validation request: answers at once for an empty candidate (`true`) or one
    /// that lists a typed hash twice (`false`); otherwise enrolls the responder on the
    /// candidate's state, creating it if needed, and fetches every listed transaction.
    pub fn handle_request(&mut self, block: ValidatingBlock, sender: u64, responder: u64) -> (effects:
        Vec<Effect>)
        requires
            old(self).wf(),
            forall|i: int|
                0 <= i < block@.entries().len() ==> old(self).in_flight_count(
                    #[trigger] block@.entries()[i].0.spec_hash(),
                ) + block@.hash_count() <= u64::MAX,
        ensures
            final(self).wf(),
            final(self).config() == old(self).config(),
            final(self).chain_name() == old(self).chain_name(),
            block@.hash_count() == 0 ==> {
                &&& effects@ == seq![Effect::Respond { responder, valid: true }]
                &&& final(self).states() == old(self).states()
                &&& forall|k: DeployHash| final(self).in_flight_count(k) == old(self).in_flight_count(k)
            },
            block@.hash_count() > 0 && !typed_distinct(block@.entries()) ==> {
                &&& effects@ == seq![Effect::Respond { responder, valid: false }]
                &&& final(self).states() == old(self).states()
                &&& forall|k: DeployHash| final(self).in_flight_count(k) == old(self).in_flight_count(k)
            },
            block@.hash_count() > 0 && typed_distinct(block@.entries()) ==> {
                &&& effects@ == fetches(block@.entries(), sender)
                &&& final(self).states() == requested_states(
                    old(self).states(),
                    old(self).config(),
                    old(self).chain_name(),
                    block@,
                    responder,
                )
                &&& forall|k: DeployHash| #[trigger] final(self).in_flight_count(k)
                    == old(self).in_flight_count(k) + occurrences(block@.entries(), k)
                &&& forall|i: int|
                    0 <= i < block@.entries().len() ==> final(self).in_flight_count(
                        #[trigger] block@.entries()[i].0.spec_hash(),
                    ) >= 1
            },
    {
        let entries = block.deploys_and_transfers_iter();
        let ghost ev = block@.entries();
        assert(ev.len() == block@.hash_count());
        if entries.len() == 0 {
            return vec![Effect::Respond { responder, valid: true }];
        }
        if !all_distinct(&entries) {
            return vec![Effect::Respond { responder, valid: false }];
        }
        let ghost old_states = self.states();
        let ghost vs = self.validation_states@;
        let ghost old_counter = self.in_flight;
        assert forall|j: int| 0 <= j < ev.len() implies old_counter.count(
            #[trigger] ev[j].0.spec_hash(),
        ) + ev.len() <= u64::MAX by {
            assert(old(self).in_flight_count(ev[j].0.spec_hash()) == old_counter.count(
                ev[j].0.spec_hash(),
            ));
        }
        assert(ev.subrange(0, 0) =~= Seq::<EntryView>::empty());
        let mut effects: Vec<Effect> = Vec::new();
        let mut i: usize = 0;
        while i < entries.len()
            invariant
                0 <= i <= entries@.len(),
                ev == entries_view(entries@),
                ev.len() == block@.hash_count(),
                self.validation_states@ == vs,
                self.deploy_config == old(self).deploy_config,
                self.chain_name == old(self).chain_name,
                old_counter.wf(),
                self.in_flight.wf(),
                forall|j: int|
                    0 <= j < ev.len() ==> old_counter.count(#[trigger] ev[j].0.spec_hash())
                        + ev.len() <= u64::MAX,
                forall|k: DeployHash| #[trigger] self.in_flight.count(k) == old_counter.count(k)
                    + occurrences(ev.subrange(0, i as int), k),
                effects@ == fetches(ev.subrange(0, i as int), sender),
            decreases entries@.len() - i,
        {
            let dt = entries[i].0;
            let h = dt.hash();
            assert(ev[i as int] == crate::validating_block::entry_view(entries@[i as int]));
            proof {
                lemma_occurrences_bound(ev.subrange(0, i as int), h);
                assert(h == ev[i as int].0.spec_hash());
                assert(old_counter.count(ev[i as int].0.spec_hash()) + ev.len() <= u64::MAX);
                assert(self.in_flight.count(h) == old_counter.count(h) + occurrences(
                    ev.subrange(0, i as int),
                    h,
                ));
            }
            self.in_flight.inc(&h);
            effects.push(Effect::Fetch { dt_hash: dt, peer: sender });
            i = i + 1;
            proof {
                let pre = ev.subrange(0, i - 1);
                let cur = ev.subrange(0, i as int);
                assert(cur.drop_last() =~= pre);
                assert(ev[i - 1] == crate::validating_block::entry_view(entries@[i - 1]));
                assert(cur.last().0 == dt);
                assert(fetches(cur, sender) =~= fetches(pre, sender).push(
                    Effect::Fetch { dt_hash: dt, peer: sender },
                ));
            }
        }
        assert(ev.subrange(0, ev.len() as int) =~= ev);
        assert forall|i: int| 0 <= i < ev.len() implies self.in_flight.count(
            #[trigger] ev[i].0.spec_hash(),
        ) >= 1 by {
            lemma_occurrences_positive(ev, i);
        }
        match self.find_state(&block) {
            Some(i) => {
                let (b, mut st) = self.validation_states.remove(i);
                let ghost sv = st@;
                st.responders.push(responder);
                let ghost nv = st@;
                self.validation_states.insert(i, (b, st));
                proof {
                    assert(self.validation_states@ =~= vs.update(i as int, (b, st)));
                    assert(nv == StateView { responders: sv.responders.push(responder), ..sv });
                    assert(exists|j: int| 0 <= j < old_states.len() && old_states[j].0 == block@);
                    let c = choose|j: int| 0 <= j < old_states.len() && old_states[j].0 == block@;
                    assert(c == i);
                    assert(self.states() =~= requested_states(
                        old_states,
                        self.deploy_config,
                        self.chain_name@,
                        block@,
                        responder,
                    ));
                    assert forall|j: int|
                        0 <= j < self.validation_states@.len() implies (
                        #[trigger] self.validation_states@[j]).1.wf() by {
                        if j != i {
                            assert(self.validation_states@[j] == vs[j]);
                        }
                    }
                    assert forall|a: int, c: int|
                        0 <= a < self.validation_states@.len() && 0 <= c
                            < self.validation_states@.len() && a != c implies self.validation_states@[a].0@
                        != self.validation_states@[c].0@ by {
                        assert(self.validation_states@[a].0@ == vs[a].0@);
                        assert(self.validation_states@[c].0@ == vs[c].0@);
                    }
                }
            },
            None => {
                let ts = block.timestamp();
                let appendable_block = AppendableBlock::new(self.deploy_config, ts, &self.chain_name);
                let st = BlockValidationState {
                    appendable_block,
                    missing_deploys: entries,
                    responders: vec![responder],
                };
                let ghost bv = block@;
                self.validation_states.push((block, st));
                proof {
                    assert(st@.responders =~= seq![responder]);
                    assert(st@ == fresh_state(self.deploy_config, self.chain_name@, bv, responder));
                    assert(self.states() =~= old_states.push(
                        (bv, fresh_state(self.deploy_config, self.chain_name@, bv, responder)),
                    ));
                    assert forall|j: int|
                        0 <= j < self.validation_states@.len() implies (
                        #[trigger] self.validation_states@[j]).1.wf() by {
                        if j < vs.len() {
                            assert(self.validation_states@[j] == vs[j]);
                        }
                    }
                    assert forall|a: int, c: int|
                        0 <= a < self.validation_states@.len() && 0 <= c
                            < self.validation_states@.len() && a != c implies self.validation_states@[a].0@
                        != self.validation_states@[c].0@ by {
                        if a < vs.len() {
                            assert(self.validation_states@[a] == vs[a]);
                            assert(old_states[a].0 == vs[a].0@);
                        }
                        if c < vs.len() {
                            assert(self.validation_states@[c] == vs[c]);
                            assert(old_states[c].0 == vs[c].0@);
                        }
                    }
                }
            },
        }
        effects
    }

    /// Crosses a found transaction off every state that misses it, admitting it there, and
    /// closes the states that reach a verdict.
    fn sweep_found(
        &mut self,
        dt: DeployOrTransferHash,
        approvals: &Vec<Approval>,
        info: &DeployInfo,
    ) -> (effects: Vec<Effect>)
        requires
            old(self).wf(),
        ensures
            final(self).wf(),
            final(self).in_flight == old(self).in_flight,
            final(self).deploy_config == old(self).deploy_config,
            final(self).chain_name == old(self).chain_name,
            final(self).states() == kept_states(
                old(self).states(),
                Outcome::Found(dt, approvals@, *info),
            ),
            effects@ == swept_effects(old(self).states(), Outcome::Found(dt, approvals@, *info)),
    {
        let ghost o = Outcome::Found(dt, approvals@, *info);
        let mut rest: Vec<(ValidatingBlock, BlockValidationState)> = Vec::new();
        std::mem::swap(&mut rest, &mut self.validation_states);
        let ghost orig = rest@;
        let ghost ov = states_view(orig);
        let mut kept: Vec<(ValidatingBlock, BlockValidationState)> = Vec::new();
        let mut effects: Vec<Effect> = Vec::new();
        let ghost mut j: int = 0;
        assert(ov.subrange(0, 0) =~= Seq::<(ValidatingBlockView, StateView)>::empty());
        assert(states_view(kept@) =~= Seq::<(ValidatingBlockView, StateView)>::empty());
        while rest.len() > 0
            invariant
                0 <= j <= orig.len(),
                o == Outcome::Found(dt, approvals@, *info),
                ov == states_view(orig),
                rest@ == orig.subrange(j, orig.len() as int),
                states_view(kept@) == kept_states(ov.subrange(0, j), o),
                effects@ == swept_effects(ov.subrange(0, j), o),
                forall|a: int| 0 <= a < kept@.len() ==> (#[trigger] kept@[a]).1.wf(),
                forall|a: int|
                    0 <= a < kept@.len() ==> exists|b: int|
                        0 <= b < j && (#[trigger] kept@[a]).0@ == orig[b].0@,
                forall|a: int, c: int|
                    0 <= a < kept@.len() && 0 <= c < kept@.len() && a != c ==> kept@[a].0@
                        != kept@[c].0@,
                forall|i: int| 0 <= i < orig.len() ==> (#[trigger] orig[i]).1.wf(),
                forall|i: int, k: int|
                    0 <= i < orig.len() && 0 <= k < orig.len() && i != k ==> orig[i].0@
                        != orig[k].0@,
                self.in_flight == old(self).in_flight,
                self.deploy_config == old(self).deploy_config,
                self.chain_name == old(self).chain_name,
            decreases rest.len(),
        {
            assert(rest@[0] == orig[j]);
            let (block, mut st) = rest.remove(0);
            let ghost sv = st@;
            let ghost step = ov.subrange(0, j + 1);
            let ghost kept_before = kept@;
            proof {
                assert(rest@ =~= orig.subrange(j + 1, orig.len() as int));
                assert(step.drop_last() =~= ov.subrange(0, j));
                assert(step.last() == (block@, sv));
                assert(orig[j].1.wf());
            }
            match find_entry(&st.missing_deploys, &dt) {
                None => {
                    kept.push((block, st));
                    proof {
                        assert(verdict(o, sv) is None);
                        assert(after(o, sv) == sv);
                        assert(states_view(kept@) =~= states_view(kept_before).push((block@, sv)));
                    }
                },
                Some(i) => {
                    let ghost m = sv.missing;
                    proof {
                        assert(m[i as int] == crate::validating_block::entry_view(
                            st.missing_deploys@[i as int],
                        ));
                        assert(has_entry(m, dt));
                        let c = index_of(m, dt);
                        assert(c == i);
                    }
                    let (_, maybe) = st.missing_deploys.remove(i);
                    let appr = match maybe {
                        Some(a) => a,
                        None => copy_approvals(approvals),
                    };
                    assert(appr@ == chosen_approvals(sv, dt, approvals@));
                    let dwa = DeployWithApprovals { deploy_hash: dt.hash(), approvals: appr };
                    let res = match dt {
                        DeployOrTransferHash::Deploy(_) => st.appendable_block.add_deploy(dwa, info),
                        DeployOrTransferHash::Transfer(_) => st.appendable_block.add_transfer(
                            dwa,
                            info,
                        ),
                    };
                    proof {
                        assert(entries_view(st.missing_deploys@) =~= m.remove(i as int));
                    }
                    match res {
                        Err(reason) => {
                            let block_timestamp = st.appendable_block.timestamp();
                            effects.push(Effect::Rejected { block_timestamp, dt_hash: dt, reason });
                            st.respond(&mut effects, false);
                        },
                        Ok(()) => {
                            if st.missing_deploys.len() == 0 {
                                st.respond(&mut effects, true);
                            } else {
                                let ghost nv = st@;
                                proof {
                                    assert(index_of(m, dt) == i);
                                    assert(nv.missing == after(o, sv).missing);
                                    assert(nv.responders == after(o, sv).responders);
                                    assert(nv.appendable == after(o, sv).appendable);
                                    assert(nv == after(o, sv));
                                    let mr = entries_view(st.missing_deploys@);
                                    assert forall|a: int, b: int|
                                        0 <= a < mr.len() && 0 <= b < mr.len() && a != b implies mr[a].0
                                        != mr[b].0 by {
                                        let a2 = if a < i { a } else { a + 1 };
                                        let b2 = if b < i { b } else { b + 1 };
                                        assert(mr[a] == m[a2]);
                                        assert(mr[b] == m[b2]);
                                    }
                                }
                                kept.push((block, st));
                                proof {
                                    assert(states_view(kept@) =~= states_view(kept_before).push(
                                        (block@, nv),
                                    ));
                                }
                            }
                        },
                    }
                },
            }
            proof {
                lemma_kept_blocks(orig, kept_before, kept@, j);
                j = j + 1;
            }
        }
        assert(ov.subrange(0, orig.len() as int) =~= ov);
        self.validation_states = kept;
        effects
    }

    /// Closes with `false` every state that misses the lost transaction.
    fn sweep_lost(&mut self, dt: DeployOrTransferHash) -> (effects: Vec<Effect>)
        requires
            old(self).wf(),
        ensures
            final(self).wf(),
            final(self).in_flight == old(self).in_flight,
            final(self).deploy_config == old(self).deploy_config,
            final(self).chain_name == old(self).chain_name,
            final(self).states() == kept_states(old(self).states(), Outcome::Lost(dt)),
            effects@ == swept_effects(old(self).states(), Outcome::Lost(dt)),
    {
        let ghost o = Outcome::Lost(dt);
        let mut rest: Vec<(ValidatingBlock, BlockValidationState)> = Vec::new();
        std::mem::swap(&mut rest, &mut self.validation_states);
        let ghost orig = rest@;
        let ghost ov = states_view(orig);
        let mut kept: Vec<(ValidatingBlock, BlockValidationState)> = Vec::new();
        let mut effects: Vec<Effect> = Vec::new();
        let ghost mut j: int = 0;
        assert(ov.subrange(0, 0) =~= Seq::<(ValidatingBlockView, StateView)>::empty());
        assert(states_view(kept@) =~= Seq::<(ValidatingBlockView, StateView)>::empty());
        while rest.len() > 0
            invariant
                0 <= j <= orig.len(),
                o == Outcome::Lost(dt),
                ov == states_view(orig),
                rest@ == orig.subrange(j, orig.len() as int),
                states_view(kept@) == kept_states(ov.subrange(0, j), o),
                effects@ == swept_effects(ov.subrange(0, j), o),
                forall|a: int| 0 <= a < kept@.len() ==> (#[trigger] kept@[a]).1.wf(),
                forall|a: int|
                    0 <= a < kept@.len() ==> exists|b: int|
                        0 <= b < j && (#[trigger] kept@[a]).0@ == orig[b].0@,
                forall|a: int, c: int|
                    0 <= a < kept@.len() && 0 <= c < kept@.len() && a != c ==> kept@[a].0@
                        != kept@[c].0@,
                forall|i: int| 0 <= i < orig.len() ==> (#[trigger] orig[i]).1.wf(),
                forall|i: int, k: int|
                    0 <= i < orig.len() && 0 <= k < orig.len() && i != k ==> orig[i].0@
                        != orig[k].0@,
                self.in_flight == old(self).in_flight,
                self.deploy_config == old(self).deploy_config,
                self.chain_name == old(self).chain_name,
            decreases rest.len(),
        {
            assert(rest@[0] == orig[j]);
            let (block, mut st) = rest.remove(0);
            let ghost sv = st@;
            let ghost step = ov.subrange(0, j + 1);
            let ghost kept_before = kept@;
            proof {
                assert(rest@ =~= orig.subrange(j + 1, orig.len() as int));
                assert(step.drop_last() =~= ov.subrange(0, j));
                assert(step.last() == (block@, sv));
                assert(orig[j].1.wf());
            }
            match find_entry(&st.missing_deploys, &dt) {
                None => {
                    kept.push((block, st));
                    proof {
                        assert(verdict(o, sv) is None);
                        assert(after(o, sv) == sv);
                        assert(states_view(kept@) =~= states_view(kept_before).push((block@, sv)));
                    }
                },
                Some(i) => {
                    proof {
                        assert(sv.missing[i as int] == crate::validating_block::entry_view(
                            st.missing_deploys@[i as int],
                        ));
                    }
                    assert(verdict(o, sv) == Some(false));
                    st.respond(&mut effects, false);
                },
            }
            proof {
                lemma_kept_blocks(orig, kept_before, kept@, j);
                j = j + 1;
            }
        }
        assert(ov.subrange(0, orig.len() as int) =~= ov);
        self.validation_states = kept;
        effects
    }

    /// Handles a found transaction: one fetch fewer is outstanding; every state that misses the
    /// transaction admits it, with the candidate's own approvals where it carries them; a state
    /// whose admission fails is answered `false`, one with nothing left missing `true`.
    pub fn handle_deploy_found(
        &mut self,
        dt_hash: DeployOrTransferHash,
        approvals: Vec<Approval>,
        deploy_info: DeployInfo,
    ) -> (effects: Vec<Effect>)
        requires
            old(self).wf(),
            old(self).in_flight_count(dt_hash.spec_hash()) > 0,
        ensures
            final(self).wf(),
            final(self).config() == old(self).config(),
            final(self).chain_name() == old(self).chain_name(),
            final(self).in_flight_count(dt_hash.spec_hash()) == old(self).in_flight_count(
                dt_hash.spec_hash(),
            ) - 1,
            forall|k: DeployHash|
                k != dt_hash.spec_hash() ==> #[trigger] final(self).in_flight_count(k)
                    == old(self).in_flight_count(k),
            final(self).states() == kept_states(
                old(self).states(),
                Outcome::Found(dt_hash, approvals@, deploy_info),
            ),
            effects@ == swept_effects(
                old(self).states(),
                Outcome::Found(dt_hash, approvals@, deploy_info),
            ),
    {
        let h = dt_hash.hash();
        self.in_flight.dec(&h);
        self.sweep_found(dt_hash, &approvals, &deploy_info)
    }

    /// Handles a fetch that timed out: one fetch fewer is outstanding; if none of the hash is
    /// left, every state that misses the transaction is answered `false`.
    pub fn handle_deploy_missing(&mut self, dt_hash: DeployOrTransferHash) -> (effects: Vec<Effect>)
        requires
            old(self).wf(),
            old(self).in_flight_count(dt_hash.spec_hash()) > 0,
        ensures
            final(self).wf(),
            final(self).config() == old(self).config(),
            final(self).chain_name() == old(self).chain_name(),
            final(self).in_flight_count(dt_hash.spec_hash()) == old(self).in_flight_count(
                dt_hash.spec_hash(),
            ) - 1,
            forall|k: DeployHash|
                k != dt_hash.spec_hash() ==> #[trigger] final(self).in_flight_count(k)
                    == old(self).in_flight_count(k),
            old(self).in_flight_count(dt_hash.spec_hash()) > 1 ==> {
                &&& final(self).states() == old(self).states()
                &&& effects@.len() == 0
            },
            old(self).in_flight_count(dt_hash.spec_hash()) == 1 ==> {
                &&& final(self).states() == kept_states(old(self).states(), Outcome::Lost(dt_hash))
                &&& effects@ == swept_effects(old(self).states(), Outcome::Lost(dt_hash))
            },
    {
        let h = dt_hash.hash();
        if self.in_flight.dec(&h) != 0 {
            return Vec::new();
        }
        self.sweep_lost(dt_hash)
    }

    /// Handles a fetched payload that cannot serve as the transaction: one fetch fewer is
    /// outstanding, and every state that misses the transaction is answered `false` at once.
    pub fn handle_cannot_convert_deploy(&mut self, dt_hash: DeployOrTransferHash) -> (effects: Vec<
        Effect,
    >)
        requires
            old(self).wf(),
            old(self).in_flight_count(dt_hash.spec_hash()) > 0,
        ensures
            final(self).wf(),
            final(self).config() == old(self).config(),
            final(self).chain_name() == old(self).chain_name(),
            final(self).in_flight_count(dt_hash.spec_hash()) == old(self).in_flight_count(
                dt_hash.spec_hash(),
            ) - 1,
            forall|k: DeployHash|
                k != dt_hash.spec_hash() ==> #[trigger] final(self).in_flight_count(k)
                    == old(self).in_flight_count(k),
            final(self).states() == kept_states(old(self).states(), Outcome::Lost(dt_hash)),
            effects@ == swept_effects(old(self).states(), Outcome::Lost(dt_hash)),
    {
        let h = dt_hash.hash();
        self.in_flight.dec(&h);
        self.sweep_lost(dt_hash)
    }

    /// Whether the validator can take `event`: a fetch outcome must answer an outstanding fetch,
    /// and a request must not overflow the fetch counts.
    pub open spec fn accepts(&self, event: Event) -> bool {
        match event {
            Event::Request { block, .. } => forall|i: int|
                0 <= i < block@.entries().len() ==> self.in_flight_count(
                    #[trigger] block@.entries()[i].0.spec_hash(),
                ) + block@.hash_count() <= u64::MAX,
            Event::DeployFound { dt_hash, .. } => self.in_flight_count(dt_hash.spec_hash()) > 0,
            Event::DeployMissing(dt_hash) => self.in_flight_count(dt_hash.spec_hash()) > 0,
            Event::CannotConvertDeploy(dt_hash) => self.in_flight_count(dt_hash.spec_hash()) > 0,
        }
    }

    /// Handles one event to completion and returns what is to be done.
    pub fn handle_event(&mut self, event: Event) -> (effects: Vec<Effect>)
        requires
            old(self).wf(),
            old(self).accepts(event),
        ensures
            final(self).wf(),
            final(self).config() == old(self).config(),
            final(self).chain_name() == old(self).chain_name(),
            match event {
                Event::Request { block, .. } => forall|k: DeployHash| #[trigger] final(self).in_flight_count(k)
                    == old(self).in_flight_count(k) + if block@.hash_count() > 0 && typed_distinct(
                    block@.entries(),
                ) {
                    occurrences(block@.entries(), k)
                } else {
                    0
                },
                Event::DeployFound { dt_hash, .. } | Event::DeployMissing(dt_hash)
                | Event::CannotConvertDeploy(dt_hash) => {
                    &&& final(self).in_flight_count(dt_hash.spec_hash()) == old(self).in_flight_count(
                        dt_hash.spec_hash(),
                    ) - 1
                    &&& forall|k: DeployHash|
                        k != dt_hash.spec_hash() ==> #[trigger] final(self).in_flight_count(k)
                            == old(self).in_flight_count(k)
                },
            },
            match event {
                Event::Request { block, sender, responder } => {
                    if block@.hash_count() == 0 {
                        &&& effects@ == seq![Effect::Respond { responder, valid: true }]
                        &&& final(self).states() == old(self).states()
                    } else if !typed_distinct(block@.entries()) {
                        &&& effects@ == seq![Effect::Respond { responder, valid: false }]
                        &&& final(self).states() == old(self).states()
                    } else {
                        &&& effects@ == fetches(block@.entries(), sender)
                        &&& final(self).states() == requested_states(
                            old(self).states(),
                            old(self).config(),
                            old(self).chain_name(),
                            block@,
                            responder,
                        )
                    }
                },
                Event::DeployFound { dt_hash, approvals, deploy_info } => {
                    &&& final(self).states() == kept_states(
                        old(self).states(),
                        Outcome::Found(dt_hash, approvals@, deploy_info),
                    )
                    &&& effects@ == swept_effects(
                        old(self).states(),
                        Outcome::Found(dt_hash, approvals@, deploy_info),
                    )
                },
                Event::DeployMissing(dt_hash) => {
                    if old(self).in_flight_count(dt_hash.spec_hash()) > 1 {
                        &&& final(self).states() == old(self).states()
                        &&& effects@.len() == 0
                    } else {
                        &&& final(self).states() == kept_states(
                            old(self).states(),
                            Outcome::Lost(dt_hash),
                        )
                        &&& effects@ == swept_effects(old(self).states(), Outcome::Lost(dt_hash))
                    }
                },
                Event::CannotConvertDeploy(dt_hash) => {
                    &&& final(self).states() == kept_states(
                        old(self).states(),
                        Outcome::Lost(dt_hash),
                    )
                    &&& effects@ == swept_effects(old(self).states(), Outcome::Lost(dt_hash))
                },
            },
    {
        match event {
            Event::Request { block, sender, responder } => self.handle_request(
                block,
                sender,
                responder,
            ),
            Event::DeployFound { dt_hash, approvals, deploy_info } => self.handle_deploy_found(
                dt_hash,
                approvals,
                deploy_info,
            ),
            Event::DeployMissing(dt_hash) => self.handle_deploy_missing(dt_hash),
            Event::CannotConvertDeploy(dt_hash) => self.handle_cannot_convert_deploy(dt_hash),
        }
    }
}


/// A transaction payload delivered by the fetcher.
#[derive(Clone, Debug)]
pub struct FetchedDeploy {
    /// The typed hash the payload reports for itself.
    pub dt_hash: DeployOrTransferHash,
    /// The approvals the payload carries.
    pub approvals: Vec<Approval>,
    /// The structural facts extracted from the payload, if they could be extracted.
    pub deploy_info: Option<DeployInfo>,
}

/// What a fetch came back with.
#[derive(Clone, Debug)]
pub enum FetchResult {
    FromStorage(FetchedDeploy),
    FromPeer(FetchedDeploy, u64),
    /// Timed out, or every source was exhausted.
    Absent,
}

/// The event that the outcome of a fetch of `dt_hash` becomes: a missing transaction for an
/// absent result, an unusable one for a payload of another typed hash or without deploy info,
/// and otherwise a found one with the payload's approvals and info.
pub fn fetch_result_event(dt_hash: DeployOrTransferHash, result: FetchResult) -> (r: Event)
    ensures
        match result {
            FetchResult::Absent => r == Event::DeployMissing(dt_hash),
            FetchResult::FromStorage(d) | FetchResult::FromPeer(d, _) => {
                if d.dt_hash == dt_hash && d.deploy_info is Some {
                    r matches Event::DeployFound { dt_hash: h, approvals, deploy_info } && h
                        == dt_hash && approvals@ == d.approvals@ && deploy_info
                        == d.deploy_info.unwrap()
                } else {
                    r == Event::CannotConvertDeploy(dt_hash)
                }
            },
        },
{
    match result {
        FetchResult::Absent => Event::DeployMissing(dt_hash),
        FetchResult::FromStorage(d) | FetchResult::FromPeer(d, _) => {
            if !typed_hash_eq(&d.dt_hash, &dt_hash) {
                return Event::CannotConvertDeploy(dt_hash);
            }
            match d.deploy_info {
                Some(deploy_info) => Event::DeployFound {
                    dt_hash,
                    approvals: d.approvals,
                    deploy_info,
                },
                None => Event::CannotConvertDeploy(dt_hash),
            }
        },
    }
}

/// Every state that an outcome leaves open comes from a state of the same block that the
/// outcome did not close.
pub proof fn lemma_kept_origin(
    states: Seq<(ValidatingBlockView, StateView)>,
    o: Outcome,
    j: int,
)
    requires
        0 <= j < kept_states(states, o).len(),
    ensures
        exists|i: int|
            0 <= i < states.len() && states[i].0 == kept_states(states, o)[j].0 && verdict(
                o,
                #[trigger] states[i].1,
            ) is None && kept_states(states, o)[j].1 == after(o, states[i].1),
    decreases states.len(),
{
    let prev = kept_states(states.drop_last(), o);
    if j < prev.len() {
        lemma_kept_origin(states.drop_last(), o, j);
        let i = choose|i: int|
            0 <= i < states.drop_last().len() && states.drop_last()[i].0 == prev[j].0 && verdict(
                o,
                #[trigger] states.drop_last()[i].1,
            ) is None && prev[j].1 == after(o, states.drop_last()[i].1);
        assert(states[i] == states.drop_last()[i]);
    } else {
        assert(states[states.len() - 1] == states.last());
    }
}

/// A state that an outcome closes leaves the registry. In particular one closed with `false` (an
/// admission that fails, a transaction that can no longer be had) is gone: no later event can
/// bring it to `true`.
pub proof fn lemma_closed_state_leaves(
    states: Seq<(ValidatingBlockView, StateView)>,
    o: Outcome,
    i: int,
)
    requires
        0 <= i < states.len(),
        forall|a: int, b: int|
            0 <= a < states.len() && 0 <= b < states.len() && a != b ==> states[a].0
                != states[b].0,
        verdict(o, states[i].1) is Some,
    ensures
        forall|j: int|
            0 <= j < kept_states(states, o).len() ==> #[trigger] kept_states(states, o)[j].0
                != states[i].0,
{
    assert forall|j: int| 0 <= j < kept_states(states, o).len() implies #[trigger] kept_states(
        states,
        o,
    )[j].0 != states[i].0 by {
        lemma_kept_origin(states, o, j);
    }
}

/// Admission is monotone: a transaction that an appendable block rejects stays rejected after
/// any other transaction is admitted.
pub proof fn lemma_admission_monotone(
    b: AppendableBlockView,
    is_transfer: bool,
    dwa: (DeployHash, Seq<Approval>),
    info: DeployInfo,
    other_is_transfer: bool,
    other: (DeployHash, Seq<Approval>),
    other_info: DeployInfo,
)
    requires
        b.rejection(is_transfer, dwa, info) is Some,
        b.rejection(other_is_transfer, other, other_info) is None,
    ensures
        b.appended(other_is_transfer, other, other_info).rejection(is_transfer, dwa, info) is Some,
{
    let n = b.appended(other_is_transfer, other, other_info);
    if b.contains_hash(dwa.0) {
        if exists|i: int| 0 <= i < b.deploys.len() && b.deploys[i].0 == dwa.0 {
            let i = choose|i: int| 0 <= i < b.deploys.len() && b.deploys[i].0 == dwa.0;
            assert(n.deploys[i] == b.deploys[i]);
        } else {
            let i = choose|i: int| 0 <= i < b.transfers.len() && b.transfers[i].0 == dwa.0;
            assert(n.transfers[i] == b.transfers[i]);
        }
    }
}

/// No responder is lost: each responder waiting before an outcome is, after it, either still
/// waiting on a state of the same block or answered by one of the outcome's effects.
pub proof fn lemma_responder_kept_or_answered(
    states: Seq<(ValidatingBlockView, StateView)>,
    o: Outcome,
    i: int,
    k: int,
)
    requires
        0 <= i < states.len(),
        0 <= k < states[i].1.responders.len(),
    ensures
        (exists|j: int|
            0 <= j < kept_states(states, o).len() && kept_states(states, o)[j].0 == states[i].0
                && kept_states(states, o)[j].1.responders.contains(states[i].1.responders[k]))
            || (exists|b: bool|
            swept_effects(states, o).contains(
                Effect::Respond { responder: states[i].1.responders[k], valid: b },
            )),
    decreases states.len(),
{
    let r = states[i].1.responders[k];
    let pk = kept_states(states.drop_last(), o);
    let pe = swept_effects(states.drop_last(), o);
    let e = states.last();
    if i < states.len() - 1 {
        assert(states.drop_last()[i] == states[i]);
        lemma_responder_kept_or_answered(states.drop_last(), o, i, k);
        if exists|j: int|
            0 <= j < pk.len() && pk[j].0 == states[i].0 && pk[j].1.responders.contains(r) {
            let j = choose|j: int|
                0 <= j < pk.len() && pk[j].0 == states[i].0 && pk[j].1.responders.contains(r);
            assert(kept_states(states, o)[j] == pk[j]);
        } else {
            let b = choose|b: bool| pe.contains(Effect::Respond { responder: r, valid: b });
            let x = choose|x: int| 0 <= x < pe.len() && pe[x] == Effect::Respond { responder: r, valid: b };
            assert(swept_effects(states, o)[x] == pe[x]);
        }
    } else {
        assert(e == states[i]);
        match verdict(o, e.1) {
            Some(b) => {
                let rs = responses(e.1.responders, b);
                assert(rs[k] == Effect::Respond { responder: r, valid: b });
                let ns = notes(o, e.1);
                assert(swept_effects(states, o)[pe.len() + ns.len() + k] == rs[k]);
            },
            None => {
                let kk = kept_states(states, o);
                assert(kk[pk.len() as int] == (e.0, after(o, e.1)));
                assert(after(o, e.1).responders == e.1.responders);
                assert(kk[pk.len() as int].1.responders[k] == r);
            },
        }
    }
}

/// When no fetch is outstanding, every fetch count is zero.
pub proof fn lemma_quiescent_counts(v: &BlockValidator)
    requires
        v.wf(),
        v.quiescent(),
    ensures
        forall|k: DeployHash| v.in_flight_count(k) == 0,
{
    v.in_flight.lemma_empty();
}

/// Each typed hash of a listing counts once toward its role-erased hash.
pub proof fn lemma_occurrences_positive(m: Seq<EntryView>, i: int)
    requires
        0 <= i < m.len(),
    ensures
        occurrences(m, m[i].0.spec_hash()) >= 1,
    decreases m.len(),
{
    if i < m.len() - 1 {
        assert(m.drop_last()[i] == m[i]);
        lemma_occurrences_positive(m.drop_last(), i);
    }
}


/// Every answer an outcome delivers goes to a responder that was waiting on a state the outcome
/// closed, and carries that state's verdict.
pub proof fn lemma_answers_from_closed_states(
    states: Seq<(ValidatingBlockView, StateView)>,
    o: Outcome,
    x: int,
)
    requires
        0 <= x < swept_effects(states, o).len(),
        swept_effects(states, o)[x] is Respond,
    ensures
        exists|i: int, k: int|
            0 <= i < states.len() && 0 <= k < states[i].1.responders.len() && verdict(o, states[i].1) is Some && swept_effects(states, o)[x]
                == (Effect::Respond {
                responder: #[trigger] states[i].1.responders[k],
                valid: verdict(o, states[i].1).unwrap(),
            }),
    decreases states.len(),
{
    let pe = swept_effects(states.drop_last(), o);
    if x < pe.len() {
        lemma_answers_from_closed_states(states.drop_last(), o, x);
        let (i, k) = choose|i: int, k: int|
            0 <= i < states.drop_last().len() && 0 <= k < states.drop_last()[i].1.responders.len()
                && verdict(o, states.drop_last()[i].1) is Some && pe[x]
                == (Effect::Respond {
                responder: #[trigger] states.drop_last()[i].1.responders[k],
                valid: verdict(o, states.drop_last()[i].1).unwrap(),
            });
        assert(states[i] == states.drop_last()[i]);
        assert(swept_effects(states, o)[x] == pe[x]);
    } else {
        let i = states.len() - 1;
        assert(states[i] == states.last());
        let ns = notes(o, states[i].1);
        assert(x >= pe.len() + ns.len()) by {
            if x < pe.len() + ns.len() {
                assert(swept_effects(states, o)[x] == ns[x - pe.len()]);
            }
        }
        let k = x - pe.len() - ns.len();
        assert(swept_effects(states, o)[x] == responses(states[i].1.responders, verdict(
            o,
            states[i].1,
        ).unwrap())[k]);
    }
}


/// The registry after each outcome of `os`, in order, with no request in between.
pub open spec fn after_outcomes(states: Seq<(ValidatingBlockView, StateView)>, os: Seq<Outcome>) -> Seq<
    (ValidatingBlockView, StateView),
>
    decreases os.len(),
{
    if os.len() == 0 {
        states
    } else {
        kept_states(after_outcomes(states, os.drop_last()), os.last())
    }
}

/// A candidate whose state an outcome closed (with `false` after a failed admission, say) has
/// no state after any later run of fetch outcomes: without a new request for it, no later event
/// can bring it to `true`.
pub proof fn lemma_closed_block_stays_closed(
    states: Seq<(ValidatingBlockView, StateView)>,
    o: Outcome,
    i: int,
    os: Seq<Outcome>,
)
    requires
        0 <= i < states.len(),
        forall|a: int, b: int|
            0 <= a < states.len() && 0 <= b < states.len() && a != b ==> states[a].0
                != states[b].0,
        verdict(o, states[i].1) is Some,
    ensures
        forall|j: int|
            0 <= j < after_outcomes(kept_states(states, o), os).len() ==> (#[trigger] after_outcomes(
                kept_states(states, o),
                os,
            )[j]).0 != states[i].0,
    decreases os.len(),
{
    if os.len() == 0 {
        lemma_closed_state_leaves(states, o, i);
    } else {
        lemma_closed_block_stays_closed(states, o, i, os.drop_last());
        let prev = after_outcomes(kept_states(states, o), os.drop_last());
        assert forall|j: int|
            0 <= j < after_outcomes(kept_states(states, o), os).len() implies (
            #[trigger] after_outcomes(kept_states(states, o), os)[j]).0 != states[i].0 by {
            lemma_kept_origin(prev, os.last(), j);
        }
    }
}

} // verus!
