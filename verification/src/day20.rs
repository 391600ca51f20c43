//! Signal propagation through a small directed graph of typed logic
//! modules: flip-flops, conjunctions and a broadcaster exchange low and
//! high pulses after each press of a button.
use vstd::prelude::*;
use vstd::string::StrSliceExecFns;
use crate::text::imin;
use crate::text::first_ws;
use crate::text::is_ws_char;
use crate::text::lemma_first_ws_is;
use crate::text::next_ws;
use crate::text::spec_lines;
use crate::text::spec_split_str;
use crate::text::split_lines;
use crate::text::split_str;
use crate::text::views_of;

verus! {

/// A pulse in flight: `pulse` is true for a high pulse.
#[derive(Debug, Clone, PartialEq, Eq)]
pub struct Signal {
    pub pulse: bool,
    pub sender: String,
    pub receiver: String,
}

/// The mathematical shape of a signal: the names as character sequences.
pub struct SignalV {
    pub pulse: bool,
    pub sender: Seq<char>,
    pub receiver: Seq<char>,
}

impl View for Signal {
    type V = SignalV;

    open spec fn view(&self) -> SignalV {
        SignalV { pulse: self.pulse, sender: self.sender@, receiver: self.receiver@ }
    }
}

/// The views of a sequence of signals.
pub open spec fn signal_views(s: Seq<Signal>) -> Seq<SignalV> {
    s.map_values(|x: Signal| x@)
}

/// One signal with pulse `pulse` from `name` to each receiver, in order.
pub open spec fn send_all(pulse: bool, name: Seq<char>, receivers: Seq<Seq<char>>) -> Seq<
    SignalV,
> {
    Seq::new(receivers.len(), |i: int| (SignalV { pulse, sender: name, receiver: receivers[i] }))
}

/// The views of a list of names.
pub open spec fn name_views(v: Seq<String>) -> Seq<Seq<char>> {
    v.map_values(|x: String| x@)
}

/// The keys of `s` are pairwise distinct, by content.
pub open spec fn wf_entries<T>(s: Seq<(String, T)>) -> bool {
    forall|i: int, j: int| 0 <= i < j < s.len() ==> s[i].0@ != s[j].0@
}

/// The map that a list of key-value entries holds, a later entry
/// overriding an earlier one of the same key.
pub open spec fn map_of_entries<T: View>(s: Seq<(String, T)>) -> Map<Seq<char>, T::V>
    decreases s.len(),
{
    if s.len() == 0 {
        Map::empty()
    } else {
        map_of_entries(s.drop_last()).insert(s.last().0@, s.last().1@)
    }
}

/// With distinct keys, the entry map holds exactly the entries.
pub proof fn lemma_map_of_entries<T: View>(s: Seq<(String, T)>)
    requires
        wf_entries(s),
    ensures
        forall|i: int|
            0 <= i < s.len() ==> map_of_entries(s).dom().contains(#[trigger] s[i].0@)
                && map_of_entries(s)[s[i].0@] == s[i].1@,
        forall|k: Seq<char>|
            map_of_entries(s).dom().contains(k) ==> exists|i: int|
                0 <= i < s.len() && #[trigger] s[i].0@ == k,
    decreases s.len(),
{
    if s.len() > 0 {
        let t = s.drop_last();
        assert(wf_entries(t)) by {
            assert forall|i: int, j: int| 0 <= i < j < t.len() implies t[i].0@ != t[j].0@ by {
                assert(s[i].0@ != s[j].0@);
            }
        }
        lemma_map_of_entries(t);
        assert forall|i: int|
            0 <= i < s.len() implies map_of_entries(s).dom().contains(#[trigger] s[i].0@)
            && map_of_entries(s)[s[i].0@] == s[i].1@ by {
            if i < s.len() - 1 {
                assert(t[i] == s[i]);
                assert(s[i].0@ != s.last().0@);
            }
        }
        assert forall|k: Seq<char>| map_of_entries(s).dom().contains(k) implies exists|i: int|
            0 <= i < s.len() && #[trigger] s[i].0@ == k by {
            if k == s.last().0@ {
                assert(s[s.len() - 1].0@ == k);
            } else {
                assert(map_of_entries(t).dom().contains(k));
                let i = choose|i: int| 0 <= i < t.len() && #[trigger] t[i].0@ == k;
                assert(t[i] == s[i]);
                assert(s[i].0@ == k);
            }
        }
    }
}

/// The kind of a module, as the first character of its line declares it.
#[derive(Debug, PartialEq, Eq, Structural)]
pub enum ModuleType {
    FlipFlop,
    Conjunction,
    Broadcast,
}

/// A flip-flop ignores high pulses; a low pulse toggles it and it sends
/// its new state to every receiver.
#[derive(Debug)]
pub struct FlipFlopModule {
    pub name: String,
    pub receivers: Vec<String>,
    pub state: bool,
}

/// A conjunction remembers the last pulse of each sender and sends low
/// exactly when every remembered pulse is high.
#[derive(Debug)]
pub struct ConjunctionModule {
    pub name: String,
    pub receivers: Vec<String>,
    pub state: Vec<(String, bool)>,
}

/// The broadcaster repeats a low pulse to every receiver.
#[derive(Debug)]
pub struct BroadcastModule {
    pub name: String,
    pub receivers: Vec<String>,
}

/// The mathematical shape of a module.
pub enum ModuleV {
    FlipFlop { name: Seq<char>, receivers: Seq<Seq<char>>, state: bool },
    Conjunction { name: Seq<char>, receivers: Seq<Seq<char>>, state: Map<Seq<char>, bool> },
    Broadcast { name: Seq<char>, receivers: Seq<Seq<char>> },
}

impl View for FlipFlopModule {
    type V = ModuleV;

    open spec fn view(&self) -> ModuleV {
        ModuleV::FlipFlop {
            name: self.name@,
            receivers: name_views(self.receivers@),
            state: self.state,
        }
    }
}

impl View for ConjunctionModule {
    type V = ModuleV;

    open spec fn view(&self) -> ModuleV {
        ModuleV::Conjunction {
            name: self.name@,
            receivers: name_views(self.receivers@),
            state: map_of_entries(self.state@),
        }
    }
}

impl View for BroadcastModule {
    type V = ModuleV;

    open spec fn view(&self) -> ModuleV {
        ModuleV::Broadcast { name: self.name@, receivers: name_views(self.receivers@) }
    }
}

/// Every remembered input pulse is high.
pub open spec fn all_inputs_high(st: Map<Seq<char>, bool>) -> bool {
    forall|k: Seq<char>| st.dom().contains(k) ==> st[k]
}

/// What a module makes of an incoming signal: its new state and the
/// signals it sends, in receiver order.
pub open spec fn receive_v(m: ModuleV, s: SignalV) -> (ModuleV, Seq<SignalV>) {
    match m {
        ModuleV::FlipFlop { name, receivers, state } => {
            if s.pulse {
                (m, Seq::empty())
            } else {
                (
                    ModuleV::FlipFlop { name, receivers, state: !state },
                    send_all(!state, name, receivers),
                )
            }
        },
        ModuleV::Conjunction { name, receivers, state } => {
            let st = state.insert(s.sender, s.pulse);
            (
                ModuleV::Conjunction { name, receivers, state: st },
                send_all(!all_inputs_high(st), name, receivers),
            )
        },
        ModuleV::Broadcast { name, receivers } => (m, send_all(false, name, receivers)),
    }
}

/// What `add_sender` makes of a module: a conjunction remembers the
/// sender with a low pulse; the others are unchanged.
pub open spec fn add_sender_v(m: ModuleV, sender: Seq<char>) -> ModuleV {
    match m {
        ModuleV::Conjunction { name, receivers, state } => ModuleV::Conjunction {
            name,
            receivers,
            state: state.insert(sender, false),
        },
        _ => m,
    }
}

/// Builds the outgoing fan-out: one signal per receiver, with the given pulse.
fn send_signals(pulse: bool, name: &String, receivers: &Vec<String>) -> (r: Vec<Signal>)
    ensures
        signal_views(r@) == send_all(pulse, name@, name_views(receivers@)),
{
    let mut r: Vec<Signal> = Vec::new();
    let n = receivers.len();
    let mut k: usize = 0;
    while k < n
        invariant
            n == receivers@.len(),
            k <= n,
            signal_views(r@) =~= send_all(pulse, name@, name_views(receivers@)).subrange(
                0,
                k as int,
            ),
        decreases n - k,
    {
        let sig = Signal { pulse, sender: name.clone(), receiver: (&receivers[k]).clone() };
        proof {
            assert(signal_views(r@.push(sig)) =~= signal_views(r@).push(sig@));
            assert(name_views(receivers@)[k as int] == receivers@[k as int]@);
            assert(signal_views(r@).push(sig@) =~= send_all(
                pulse,
                name@,
                name_views(receivers@),
            ).subrange(0, k as int + 1));
        }
        r.push(sig);
        k = k + 1;
    }
    proof {
        assert(signal_views(r@) =~= send_all(pulse, name@, name_views(receivers@)));
    }
    r
}

impl FlipFlopModule {
    pub fn receive(&mut self, signal: Signal) -> (r: Vec<Signal>)
        ensures
            final (self)@ == receive_v(old(self)@, signal@).0,
            signal_views(r@) == receive_v(old(self)@, signal@).1,
    {
        if !signal.pulse {
            self.state = !self.state;
            send_signals(self.state, &self.name, &self.receivers)
        } else {
            let r: Vec<Signal> = Vec::new();
            proof {
                assert(signal_views(r@) =~= Seq::<SignalV>::empty());
            }
            r
        }
    }

    pub fn add_sender(&mut self, _sender: String)
        ensures
            final (self)@ == add_sender_v(old(self)@, _sender@),
    {
    }
}

impl BroadcastModule {
    pub fn receive(&mut self, _signal: Signal) -> (r: Vec<Signal>)
        ensures
            final (self)@ == receive_v(old(self)@, _signal@).0,
            signal_views(r@) == receive_v(old(self)@, _signal@).1,
    {
        send_signals(false, &self.name, &self.receivers)
    }

    pub fn add_sender(&mut self, _sender: String)
        ensures
            final (self)@ == add_sender_v(old(self)@, _sender@),
    {
    }
}

/// Replaces the value under `key`, or appends the pair where the key is new.
fn upsert_bool(state: &mut Vec<(String, bool)>, key: String, val: bool)
    requires
        wf_entries(old(state)@),
    ensures
        wf_entries(final (state)@),
        map_of_entries(final (state)@) == map_of_entries(old(state)@).insert(key@, val),
{
    let n = state.len();
    let mut i: usize = 0;
    while i < n
        invariant
            n == state@.len(),
            i <= n,
            wf_entries(state@),
            state@ == old(state)@,
            forall|j: int| 0 <= j < i ==> state@[j].0@ != key@,
        decreases n - i,
    {
        if state[i].0 == key {
            let (k0, _) = state.remove(i);
            state.insert(i, (k0, val));
            proof {
                assert(state@ =~= old(state)@.update(i as int, (old(state)@[i as int].0, val)));
                lemma_update_entry(old(state)@, i as int, val);
            }
            return ;
        }
        i = i + 1;
    }
    state.push((key, val));
    proof {
        lemma_map_of_entries(old(state)@);
        assert(state@.drop_last() =~= old(state)@);
        assert(wf_entries(state@)) by {
            assert forall|a: int, b: int| 0 <= a < b < state@.len() implies state@[a].0@
                != state@[b].0@ by {
                if b == state@.len() - 1 {
                    assert(state@[a] == old(state)@[a]);
                }
            }
        }
    }
}

/// Replacing one value leaves the entry map as an insert of that key.
proof fn lemma_update_entry(s: Seq<(String, bool)>, i: int, val: bool)
    requires
        wf_entries(s),
        0 <= i < s.len(),
    ensures
        wf_entries(s.update(i, (s[i].0, val))),
        map_of_entries(s.update(i, (s[i].0, val))) == map_of_entries(s).insert(s[i].0@, val),
    decreases s.len(),
{
    let s2 = s.update(i, (s[i].0, val));
    assert(wf_entries(s2)) by {
        assert forall|a: int, b: int| 0 <= a < b < s2.len() implies s2[a].0@ != s2[b].0@ by {
            assert(s[a].0@ != s[b].0@);
        }
    }
    if i == s.len() - 1 {
        assert(s2.drop_last() =~= s.drop_last());
        assert(map_of_entries(s2) == map_of_entries(s.drop_last()).insert(s[i].0@, val));
        assert(map_of_entries(s) == map_of_entries(s.drop_last()).insert(s[i].0@, s[i].1));
        assert(map_of_entries(s).insert(s[i].0@, val) =~= map_of_entries(s.drop_last()).insert(
            s[i].0@,
            val,
        ));
    } else {
        let t = s.drop_last();
        assert(wf_entries(t)) by {
            assert forall|a: int, b: int| 0 <= a < b < t.len() implies t[a].0@ != t[b].0@ by {
                assert(s[a].0@ != s[b].0@);
            }
        }
        assert(t[i] == s[i]);
        lemma_update_entry(t, i, val);
        assert(s2.drop_last() =~= t.update(i, (s[i].0, val)));
        assert(s2.last() == s.last());
        assert(map_of_entries(s2) == map_of_entries(t).insert(s[i].0@, val).insert(
            s.last().0@,
            s.last().1,
        ));
        assert(s[i].0@ != s.last().0@);
        assert(map_of_entries(t).insert(s[i].0@, val).insert(s.last().0@, s.last().1)
            =~= map_of_entries(t).insert(s.last().0@, s.last().1).insert(s[i].0@, val));
    }
}

impl ConjunctionModule {
    /// The remembered-input table has distinct senders.
    pub open spec fn wf(&self) -> bool {
        wf_entries(self.state@)
    }

    pub fn receive(&mut self, signal: Signal) -> (r: Vec<Signal>)
        requires
            old(self).wf(),
        ensures
            final (self).wf(),
            final (self)@ == receive_v(old(self)@, signal@).0,
            signal_views(r@) == receive_v(old(self)@, signal@).1,
    {
        upsert_bool(&mut self.state, signal.sender, signal.pulse);
        let n = self.state.len();
        let mut high = true;
        let mut i: usize = 0;
        while i < n
            invariant
                n == self.state@.len(),
                i <= n,
                high == (forall|j: int| 0 <= j < i ==> self.state@[j].1),
            decreases n - i,
        {
            if !self.state[i].1 {
                high = false;
            }
            i = i + 1;
        }
        proof {
            lemma_map_of_entries(self.state@);
            let st = map_of_entries(self.state@);
            if high {
                assert forall|k: Seq<char>| st.dom().contains(k) implies st[k] by {
                    let j = choose|j: int|
                        0 <= j < self.state@.len() && #[trigger] self.state@[j].0@ == k;
                    assert(st[self.state@[j].0@] == self.state@[j].1);
                }
            } else {
                let j = choose|j: int| 0 <= j < self.state@.len() && !self.state@[j].1;
                assert(st.dom().contains(self.state@[j].0@) && !st[self.state@[j].0@]);
            }
        }
        send_signals(!high, &self.name, &self.receivers)
    }

    pub fn add_sender(&mut self, sender: String)
        requires
            old(self).wf(),
        ensures
            final (self).wf(),
            final (self)@ == add_sender_v(old(self)@, sender@),
    {
        upsert_bool(&mut self.state, sender, false);
    }
}

} // verus!

verus! {

/// A module of any of the three kinds.
#[derive(Debug)]
pub enum Module {
    FlipFlop(FlipFlopModule),
    Conjunction(ConjunctionModule),
    Broadcast(BroadcastModule),
}

impl View for Module {
    type V = ModuleV;

    open spec fn view(&self) -> ModuleV {
        match self {
            Module::FlipFlop(m) => m@,
            Module::Conjunction(m) => m@,
            Module::Broadcast(m) => m@,
        }
    }
}

impl Module {
    /// A conjunction's remembered-input table has distinct senders.
    pub open spec fn wf(&self) -> bool {
        match self {
            Module::Conjunction(m) => m.wf(),
            _ => true,
        }
    }

    pub fn receive(&mut self, signal: Signal) -> (r: Vec<Signal>)
        requires
            old(self).wf(),
        ensures
            final (self).wf(),
            final (self)@ == receive_v(old(self)@, signal@).0,
            signal_views(r@) == receive_v(old(self)@, signal@).1,
    {
        match self {
            Module::FlipFlop(m) => m.receive(signal),
            Module::Conjunction(m) => m.receive(signal),
            Module::Broadcast(m) => m.receive(signal),
        }
    }

    pub fn add_sender(&mut self, sender: String)
        requires
            old(self).wf(),
        ensures
            final (self).wf(),
            final (self)@ == add_sender_v(old(self)@, sender@),
    {
        match self {
            Module::FlipFlop(m) => m.add_sender(sender),
            Module::Conjunction(m) => m.add_sender(sender),
            Module::Broadcast(m) => m.add_sender(sender),
        }
    }
}

/// The table of modules, keyed by name.
pub struct Modules {
    pub entries: Vec<(String, Module)>,
}

impl View for Modules {
    type V = Map<Seq<char>, ModuleV>;

    open spec fn view(&self) -> Map<Seq<char>, ModuleV> {
        map_of_entries(self.entries@)
    }
}

/// Replacing one module leaves the entry map as an insert of that key.
proof fn lemma_update_module(s: Seq<(String, Module)>, i: int, m: Module)
    requires
        wf_entries(s),
        0 <= i < s.len(),
    ensures
        wf_entries(s.update(i, (s[i].0, m))),
        map_of_entries(s.update(i, (s[i].0, m))) == map_of_entries(s).insert(s[i].0@, m@),
    decreases s.len(),
{
    let s2 = s.update(i, (s[i].0, m));
    assert(wf_entries(s2)) by {
        assert forall|a: int, b: int| 0 <= a < b < s2.len() implies s2[a].0@ != s2[b].0@ by {
            assert(s[a].0@ != s[b].0@);
        }
    }
    if i == s.len() - 1 {
        assert(s2.drop_last() =~= s.drop_last());
        assert(map_of_entries(s).insert(s[i].0@, m@) =~= map_of_entries(s.drop_last()).insert(
            s[i].0@,
            m@,
        ));
    } else {
        let t = s.drop_last();
        assert(wf_entries(t)) by {
            assert forall|a: int, b: int| 0 <= a < b < t.len() implies t[a].0@ != t[b].0@ by {
                assert(s[a].0@ != s[b].0@);
            }
        }
        assert(t[i] == s[i]);
        lemma_update_module(t, i, m);
        assert(s2.drop_last() =~= t.update(i, (s[i].0, m)));
        assert(s2.last() == s.last());
        assert(s[i].0@ != s.last().0@);
        assert(map_of_entries(t).insert(s[i].0@, m@).insert(s.last().0@, s.last().1@)
            =~= map_of_entries(t).insert(s.last().0@, s.last().1@).insert(s[i].0@, m@));
    }
}

impl Modules {
    /// All keys distinct and all modules well formed.
    pub open spec fn wf(&self) -> bool {
        wf_entries(self.entries@) && forall|i: int|
            0 <= i < self.entries@.len() ==> (#[trigger] self.entries@[i].1).wf()
    }

    pub fn new() -> (r: Modules)
        ensures
            r.wf(),
            r@ == Map::<Seq<char>, ModuleV>::empty(),
    {
        let r = Modules { entries: Vec::new() };
        r
    }

    /// Puts `m` under `key`, replacing any module that key already names.
    pub fn insert(&mut self, key: String, m: Module)
        requires
            old(self).wf(),
            m.wf(),
        ensures
            final (self).wf(),
            final (self)@ == old(self)@.insert(key@, m@),
    {
        let n = self.entries.len();
        let mut i: usize = 0;
        while i < n
            invariant
                n == self.entries@.len(),
                i <= n,
                *self == *old(self),
                old(self).wf(),
                m.wf(),
                forall|j: int| 0 <= j < i ==> self.entries@[j].0@ != key@,
            decreases n - i,
        {
            if self.entries[i].0 == key {
                let (k0, _) = self.entries.remove(i);
                self.entries.insert(i, (k0, m));
                proof {
                    assert(self.entries@ =~= old(self).entries@.update(
                        i as int,
                        (old(self).entries@[i as int].0, m),
                    ));
                    lemma_update_module(old(self).entries@, i as int, m);
                    assert forall|j: int|
                        0 <= j < self.entries@.len() implies (#[trigger] self.entries@[j].1).wf()
                        by {
                        if j != i {
                            assert(self.entries@[j] == old(self).entries@[j]);
                        }
                    }
                }
                return ;
            }
            i = i + 1;
        }
        self.entries.push((key, m));
        proof {
            assert(self.entries@.drop_last() =~= old(self).entries@);
            assert(wf_entries(self.entries@)) by {
                assert forall|a: int, b: int|
                    0 <= a < b < self.entries@.len() implies self.entries@[a].0@
                    != self.entries@[b].0@ by {
                    if b == self.entries@.len() - 1 {
                        assert(self.entries@[a] == old(self).entries@[a]);
                    }
                }
            }
        }
    }

    /// Hands the signal to the module its receiver names, where there is
    /// one, and returns what that module sent.
    pub fn deliver(&mut self, signal: Signal) -> (r: Option<Vec<Signal>>)
        requires
            old(self).wf(),
        ensures
            final (self).wf(),
            old(self)@.dom().contains(signal@.receiver) ==> (r matches Some(out)
                && signal_views(out@) == receive_v(old(self)@[signal@.receiver], signal@).1
                && final (self)@ == old(self)@.insert(
                signal@.receiver,
                receive_v(old(self)@[signal@.receiver], signal@).0,
            )),
            !old(self)@.dom().contains(signal@.receiver) ==> (r is None && final (self)@ == old(
                self,
            )@ && *final (self) == *old(self)),
    {
        let n = self.entries.len();
        let mut i: usize = 0;
        while i < n
            invariant
                n == self.entries@.len(),
                i <= n,
                *self == *old(self),
                old(self).wf(),
                forall|j: int| 0 <= j < i ==> self.entries@[j].0@ != signal@.receiver,
            decreases n - i,
    {
            if self.entries[i].0 == signal.receiver {
                proof {
                    lemma_map_of_entries(self.entries@);
                }
                let (k0, mut m) = self.entries.remove(i);
                let out = m.receive(signal);
                self.entries.insert(i, (k0, m));
                proof {
                    assert(self.entries@ =~= old(self).entries@.update(
                        i as int,
                        (old(self).entries@[i as int].0, self.entries@[i as int].1),
                    ));
                    lemma_update_module(old(self).entries@, i as int, self.entries[i as int].1);
                }
                return Some(out);
            }
            i = i + 1;
        }
        proof {
            lemma_map_of_entries(self.entries@);
            if self@.dom().contains(signal@.receiver) {
                let j = choose|j: int|
                    0 <= j < self.entries@.len() && #[trigger] self.entries@[j].0@
                        == signal@.receiver;
            }
        }
        None
    }

    /// Lets the module under `key`, where there is one, remember `sender`.
    pub fn add_sender_to(&mut self, key: &String, sender: String)
        requires
            old(self).wf(),
        ensures
            final (self).wf(),
            old(self)@.dom().contains(key@) ==> final (self)@ == old(self)@.insert(
                key@,
                add_sender_v(old(self)@[key@], sender@),
            ),
            !old(self)@.dom().contains(key@) ==> final (self)@ == old(self)@,
    {
        let n = self.entries.len();
        let mut i: usize = 0;
        while i < n
            invariant
                n == self.entries@.len(),
                i <= n,
                *self == *old(self),
                old(self).wf(),
                forall|j: int| 0 <= j < i ==> self.entries@[j].0@ != key@,
            decreases n - i,
        {
            if self.entries[i].0 == *key {
                proof {
                    lemma_map_of_entries(self.entries@);
                }
                let (k0, mut m) = self.entries.remove(i);
                m.add_sender(sender);
                self.entries.insert(i, (k0, m));
                proof {
                    assert(self.entries@ =~= old(self).entries@.update(
                        i as int,
                        (old(self).entries@[i as int].0, self.entries@[i as int].1),
                    ));
                    lemma_update_module(old(self).entries@, i as int, self.entries[i as int].1);
                }
                return ;
            }
            i = i + 1;
        }
        proof {
            lemma_map_of_entries(self.entries@);
            if self@.dom().contains(key@) {
                let j = choose|j: int|
                    0 <= j < self.entries@.len() && #[trigger] self.entries@[j].0@ == key@;
            }
        }
    }
}

} // verus!

verus! {

/// The kind that a line's first character declares.
pub open spec fn spec_module_type(s: Seq<char>) -> ModuleType {
    if s.len() > 0 && s[0] == '&' {
        ModuleType::Conjunction
    } else if s.len() > 0 && s[0] == '%' {
        ModuleType::FlipFlop
    } else {
        ModuleType::Broadcast
    }
}

/// The name a line declares: `broadcast` for the broadcaster, else the
/// first whitespace-separated token without its kind mark.
pub open spec fn spec_module_name(s: Seq<char>) -> Seq<char> {
    if spec_module_type(s) is Broadcast {
        "broadcast"@
    } else {
        s.subrange(1, imin(first_ws(s) as int, s.len() as int))
    }
}

/// The receiver names a line declares: the part after ` -> `, split at
/// each `, `.
pub open spec fn spec_receivers(l: Seq<char>) -> Seq<Seq<char>> {
    spec_split_str(spec_split_str(l, " -> "@)[1], ", "@)
}

pub fn parse_module_type(line: &str) -> (r: ModuleType)
    requires
        line@.len() > 0,
    ensures
        r == spec_module_type(line@),
{
    let c = line.get_char(0);
    if c == '&' {
        ModuleType::Conjunction
    } else if c == '%' {
        ModuleType::FlipFlop
    } else {
        ModuleType::Broadcast
    }
}

pub fn parse_module_name(line: &str) -> (r: String)
    requires
        line@.len() > 0,
    ensures
        r@ == spec_module_name(line@),
{
    match parse_module_type(line) {
        ModuleType::Broadcast => {
            let r: String = "broadcast".to_owned();
            r
        },
        _ => {
            let j = next_ws(line, 0);
            proof {
                assert('&' as u32 == 38);
                assert(!is_ws_char('&'));
                assert('%' as u32 == 37);
                assert(!is_ws_char('%'));
                assert(j >= 1);
                lemma_first_ws_is(line@, j as int);
            }
            let tok = line.substring_char(1, j);
            tok.to_owned()
        },
    }
}

pub fn parse_receivers(line: &str) -> (r: Vec<String>)
    requires
        spec_split_str(line@, " -> "@).len() >= 2,
    ensures
        name_views(r@) == spec_receivers(line@),
{
    proof {
        reveal_strlit(" -> ");
        reveal_strlit(", ");
    }
    let parts = split_str(line, " -> ");
    proof {
        assert(views_of(parts@)[1] == parts@[1]@);
    }
    let rest = parts[1];
    let items = split_str(rest, ", ");
    let mut r: Vec<String> = Vec::new();
    let m = items.len();
    let mut k: usize = 0;
    while k < m
        invariant
            m == items@.len(),
            k <= m,
            views_of(items@) == spec_receivers(line@),
            name_views(r@) =~= spec_receivers(line@).subrange(0, k as int),
        decreases m - k,
    {
        let name = items[k].to_owned();
        proof {
            assert(views_of(items@)[k as int] == items@[k as int]@);
            assert(name_views(r@.push(name)) =~= name_views(r@).push(name@));
        }
        r.push(name);
        k = k + 1;
    }
    proof {
        assert(name_views(r@) =~= spec_receivers(line@));
    }
    r
}

/// Every line is non-empty and has a ` -> ` separator.
pub open spec fn input_ok(s: Seq<char>) -> bool {
    forall|i: int|
        0 <= i < spec_lines(s).len() ==> (#[trigger] spec_lines(s)[i]).len() > 0 && spec_split_str(
            spec_lines(s)[i],
            " -> "@,
        ).len() >= 2
}

/// The module a line declares, with an empty memory.
pub open spec fn line_module_v(l: Seq<char>) -> ModuleV {
    match spec_module_type(l) {
        ModuleType::Broadcast => ModuleV::Broadcast {
            name: spec_module_name(l),
            receivers: spec_receivers(l),
        },
        ModuleType::Conjunction => ModuleV::Conjunction {
            name: spec_module_name(l),
            receivers: spec_receivers(l),
            state: Map::empty(),
        },
        ModuleType::FlipFlop => ModuleV::FlipFlop {
            name: spec_module_name(l),
            receivers: spec_receivers(l),
            state: false,
        },
    }
}

/// The module table after the declaration pass, a later line overriding
/// an earlier one of the same name.
pub open spec fn pass1_v(lines: Seq<Seq<char>>) -> Map<Seq<char>, ModuleV>
    decreases lines.len(),
{
    if lines.len() == 0 {
        Map::empty()
    } else {
        pass1_v(lines.drop_last()).insert(
            spec_module_name(lines.last()),
            line_module_v(lines.last()),
        )
    }
}

/// Lets each named receiver that the table holds remember `sender`.
pub open spec fn add_senders_v(
    map: Map<Seq<char>, ModuleV>,
    sender: Seq<char>,
    rs: Seq<Seq<char>>,
) -> Map<Seq<char>, ModuleV>
    decreases rs.len(),
{
    if rs.len() == 0 {
        map
    } else {
        let m1 = add_senders_v(map, sender, rs.drop_last());
        if m1.dom().contains(rs.last()) {
            m1.insert(rs.last(), add_sender_v(m1[rs.last()], sender))
        } else {
            m1
        }
    }
}

/// The sender-registration pass over all lines, in order.
pub open spec fn pass2_v(map: Map<Seq<char>, ModuleV>, lines: Seq<Seq<char>>) -> Map<
    Seq<char>,
    ModuleV,
>
    decreases lines.len(),
{
    if lines.len() == 0 {
        map
    } else {
        add_senders_v(
            pass2_v(map, lines.drop_last()),
            spec_module_name(lines.last()),
            spec_receivers(lines.last()),
        )
    }
}

/// The module table that an input text describes.
pub open spec fn modules_of_input(s: Seq<char>) -> Map<Seq<char>, ModuleV> {
    pass2_v(pass1_v(spec_lines(s)), spec_lines(s))
}

/// Builds the module table: one pass to declare every module, one pass to
/// let each module remember its senders.
pub fn create_modules(content: String) -> (m: Modules)
    requires
        input_ok(content@),
    ensures
        m.wf(),
        m@ == modules_of_input(content@),
{
    let lines = split_lines(content.as_str());
    let ln = lines.len();
    let ghost lv = spec_lines(content@);
    let mut mods = Modules::new();
    let mut i: usize = 0;
    while i < ln
        invariant
            input_ok(content@),
            lv == spec_lines(content@),
            views_of(lines@) == lv,
            ln == lines@.len(),
            i <= ln,
            mods.wf(),
            mods@ == pass1_v(lv.subrange(0, i as int)),
        decreases ln - i,
    {
        let line = lines[i];
        proof {
            assert(views_of(lines@)[i as int] == lines@[i as int]@);
            assert(lv[i as int].len() > 0 && spec_split_str(lv[i as int], " -> "@).len() >= 2);
        }
        let t = parse_module_type(line);
        let name = parse_module_name(line);
        let receivers = parse_receivers(line);
        let module = match t {
            ModuleType::Broadcast => Module::Broadcast(
                BroadcastModule { name: name.clone(), receivers },
            ),
            ModuleType::Conjunction => Module::Conjunction(
                ConjunctionModule { name: name.clone(), receivers, state: Vec::new() },
            ),
            ModuleType::FlipFlop => Module::FlipFlop(
                FlipFlopModule { name: name.clone(), receivers, state: false },
            ),
        };
        proof {
            assert(module@ == line_module_v(line@));
            assert(lv.subrange(0, i as int + 1).drop_last() =~= lv.subrange(0, i as int));
            assert(lv.subrange(0, i as int + 1).last() == lv[i as int]);
        }
        mods.insert(name, module);
        i = i + 1;
    }
    proof {
        assert(lv.subrange(0, ln as int) =~= lv);
    }
    let ghost p1 = pass1_v(lv);
    let mut i2: usize = 0;
    while i2 < ln
        invariant
            input_ok(content@),
            lv == spec_lines(content@),
            views_of(lines@) == lv,
            ln == lines@.len(),
            i2 <= ln,
            mods.wf(),
            p1 == pass1_v(lv),
            mods@ == pass2_v(p1, lv.subrange(0, i2 as int)),
        decreases ln - i2,
    {
        let line = lines[i2];
        proof {
            assert(views_of(lines@)[i2 as int] == lines@[i2 as int]@);
            assert(lv[i2 as int].len() > 0 && spec_split_str(lv[i2 as int], " -> "@).len() >= 2);
        }
        let name = parse_module_name(line);
        let receivers = parse_receivers(line);
        let ghost start = mods@;
        let rn = receivers.len();
        let mut j: usize = 0;
        while j < rn
            invariant
                rn == receivers@.len(),
                j <= rn,
                mods.wf(),
                name@ == spec_module_name(lines@[i2 as int]@),
                name_views(receivers@) == spec_receivers(lines@[i2 as int]@),
                mods@ == add_senders_v(
                    start,
                    name@,
                    name_views(receivers@).subrange(0, j as int),
                ),
            decreases rn - j,
        {
            proof {
                assert(name_views(receivers@)[j as int] == receivers@[j as int]@);
                assert(name_views(receivers@).subrange(0, j as int + 1).drop_last()
                    =~= name_views(receivers@).subrange(0, j as int));
                assert(name_views(receivers@).subrange(0, j as int + 1).last() == name_views(
                    receivers@,
                )[j as int]);
            }
            mods.add_sender_to(&receivers[j], name.clone());
            j = j + 1;
        }
        proof {
            assert(name_views(receivers@).subrange(0, rn as int) =~= name_views(receivers@));
            assert(lv.subrange(0, i2 as int + 1).drop_last() =~= lv.subrange(0, i2 as int));
            assert(lv.subrange(0, i2 as int + 1).last() == lv[i2 as int]);
        }
        i2 = i2 + 1;
    }
    proof {
        assert(lv.subrange(0, ln as int) =~= lv);
    }
    mods
}

} // verus!

verus! {

/// A simulation state: the module table, the pending signals in order,
/// and how many low and high pulses have been handled.
pub struct SimState {
    pub modules: Map<Seq<char>, ModuleV>,
    pub queue: Seq<SignalV>,
    pub low: nat,
    pub high: nat,
}

/// The signal a button press injects.
pub open spec fn button_sig() -> SignalV {
    SignalV { pulse: false, sender: "button"@, receiver: "broadcast"@ }
}

/// Handles the front signal: counts it, and where its receiver names a
/// module, lets that module take it and queues what it sent.
pub open spec fn sim_step(st: SimState) -> SimState {
    let sig = st.queue[0];
    let rest = st.queue.drop_first();
    let low2 = if sig.pulse {
        st.low
    } else {
        (st.low + 1) as nat
    };
    let high2 = if sig.pulse {
        (st.high + 1) as nat
    } else {
        st.high
    };
    if st.modules.dom().contains(sig.receiver) {
        let res = receive_v(st.modules[sig.receiver], sig);
        SimState {
            modules: st.modules.insert(sig.receiver, res.0),
            queue: rest + res.1,
            low: low2,
            high: high2,
        }
    } else {
        SimState { modules: st.modules, queue: rest, low: low2, high: high2 }
    }
}

/// Runs the machine within `fuel` steps: drains the queue, pressing the
/// button for each of the `presses` still owed, and yields the final
/// low and high counts; `None` where the fuel does not reach the end.
pub open spec fn run1(st: SimState, presses: nat, fuel: nat) -> Option<(nat, nat)>
    decreases fuel,
{
    if fuel == 0 {
        None
    } else if st.queue.len() > 0 {
        run1(sim_step(st), presses, (fuel - 1) as nat)
    } else if presses > 0 {
        run1(
            SimState {
                modules: st.modules,
                queue: seq![button_sig()],
                low: st.low,
                high: st.high,
            },
            (presses - 1) as nat,
            (fuel - 1) as nat,
        )
    } else {
        Some((st.low, st.high))
    }
}

/// Presses the button forever within `fuel` steps and yields the number
/// of presses made when a low pulse first reaches `rx`.
pub open spec fn run2(st: SimState, presses: nat, fuel: nat) -> Option<nat>
    decreases fuel,
{
    if fuel == 0 {
        None
    } else if st.queue.len() > 0 {
        let sig = st.queue[0];
        if sig.receiver == "rx"@ && !sig.pulse {
            Some(presses)
        } else {
            run2(sim_step(st), presses, (fuel - 1) as nat)
        }
    } else {
        run2(
            SimState {
                modules: st.modules,
                queue: seq![button_sig()],
                low: st.low,
                high: st.high,
            },
            (presses + 1) as nat,
            (fuel - 1) as nat,
        )
    }
}

/// The machine an input text describes, before any press.
pub open spec fn init_sim(s: Seq<char>) -> SimState {
    SimState { modules: modules_of_input(s), queue: Seq::empty(), low: 0, high: 0 }
}

/// A count clipped to what a `usize` can hold.
pub open spec fn usat(x: nat) -> nat {
    if x <= usize::MAX {
        x
    } else {
        usize::MAX as nat
    }
}

/// More fuel never changes a finished run.
pub proof fn lemma_run1_mono(st: SimState, presses: nat, f1: nat, f2: nat)
    requires
        f1 <= f2,
        run1(st, presses, f1) is Some,
    ensures
        run1(st, presses, f2) == run1(st, presses, f1),
    decreases f1,
{
    if st.queue.len() > 0 {
        lemma_run1_mono(sim_step(st), presses, (f1 - 1) as nat, (f2 - 1) as nat);
    } else if presses > 0 {
        let st2 = SimState {
            modules: st.modules,
            queue: seq![button_sig()],
            low: st.low,
            high: st.high,
        };
        lemma_run1_mono(st2, (presses - 1) as nat, (f1 - 1) as nat, (f2 - 1) as nat);
    }
}

/// More fuel never changes a finished run.
pub proof fn lemma_run2_mono(st: SimState, presses: nat, f1: nat, f2: nat)
    requires
        f1 <= f2,
        run2(st, presses, f1) is Some,
    ensures
        run2(st, presses, f2) == run2(st, presses, f1),
    decreases f1,
{
    if st.queue.len() > 0 {
        let sig = st.queue[0];
        if !(sig.receiver == "rx"@ && !sig.pulse) {
            lemma_run2_mono(sim_step(st), presses, (f1 - 1) as nat, (f2 - 1) as nat);
        }
    } else {
        let st2 = SimState {
            modules: st.modules,
            queue: seq![button_sig()],
            low: st.low,
            high: st.high,
        };
        lemma_run2_mono(st2, (presses + 1) as nat, (f1 - 1) as nat, (f2 - 1) as nat);
    }
}

/// A copy of a signal with the same content.
fn clone_signal(s: &Signal) -> (r: Signal)
    ensures
        r@ == s@,
{
    Signal { pulse: s.pulse, sender: s.sender.clone(), receiver: s.receiver.clone() }
}

/// Presses the button a thousand times and multiplies the low and high
/// pulse counts, each count and the product clipped at `usize::MAX`.
pub fn solve_part1(content: String) -> (r: usize)
    requires
        input_ok(content@),
        exists|fuel: nat| (#[trigger] run1(init_sim(content@), 1000, fuel)) is Some,
    ensures
        exists|fuel: nat|
            (#[trigger] run1(init_sim(content@), 1000, fuel) matches Some(c) && r == usat(
                usat(c.0) * usat(c.1),
            )),
{
    let ghost init = init_sim(content@);
    let ghost fuel0: nat = choose|fuel: nat| (#[trigger] run1(init, 1000, fuel)) is Some;
    let mut mods = create_modules(content);
    let mut queue: Vec<Signal> = Vec::new();
    let mut head: usize = 0;
    let mut low: usize = 0;
    let mut high: usize = 0;
    let ghost mut st = init;
    let ghost mut used: nat = 0;
    let mut press: usize = 0;
    while press < 1000
        invariant
            mods.wf(),
            press <= 1000,
            head == queue@.len(),
            st.modules == mods@,
            st.queue == Seq::<SignalV>::empty(),
            low == usat(st.low),
            high == usat(st.high),
            forall|f: nat|
                #[trigger] run1(st, (1000 - press) as nat, f) == run1(init, 1000, f + used),
            run1(init, 1000, fuel0) is Some,
            used <= fuel0,
        decreases 1000 - press,
    {
        let button = Signal {
            pulse: false,
            sender: "button".to_owned(),
            receiver: "broadcast".to_owned(),
        };
        queue.push(button);
        proof {
            let st2 = SimState {
                modules: st.modules,
                queue: seq![button_sig()],
                low: st.low,
                high: st.high,
            };
            assert forall|f: nat|
                #[trigger] run1(st2, (1000 - press - 1) as nat, f) == run1(
                    init,
                    1000,
                    f + (used + 1),
                ) by {
                assert(run1(st, (1000 - press) as nat, (f + 1) as nat) == run1(
                    init,
                    1000,
                    (f + 1) as nat + used,
                ));
            }
            st = st2;
            used = used + 1;
            assert(signal_views(queue@.subrange(head as int, queue@.len() as int))
                =~= st.queue);
            assert(run1(st, (1000 - press - 1) as nat, 0) is None);
            if used > fuel0 {
                lemma_run1_mono(init, 1000, fuel0, used);
            }
        }
        press = press + 1;
        while head < queue.len()
            invariant
                mods.wf(),
                head <= queue@.len(),
                press <= 1000,
                st.modules == mods@,
                st.queue == signal_views(queue@.subrange(head as int, queue@.len() as int)),
                low == usat(st.low),
                high == usat(st.high),
                forall|f: nat|
                    #[trigger] run1(st, (1000 - press) as nat, f) == run1(init, 1000, f + used),
                run1(init, 1000, fuel0) is Some,
                used <= fuel0,
            decreases fuel0 - used,
        {
            let signal = clone_signal(&queue[head]);
            proof {
                assert(st.queue.len() == queue@.len() - head);
                assert(signal_views(queue@.subrange(head as int, queue@.len() as int))[0]
                    == queue@[head as int]@);
            }
            head = head + 1;
            if signal.pulse {
                high = crate::sat_add(high, 1);
            } else {
                low = crate::sat_add(low, 1);
            }
            let out = mods.deliver(signal);
            let ghost st2 = sim_step(st);
            proof {
                assert(st.queue.drop_first() =~= signal_views(
                    queue@.subrange(head as int, queue@.len() as int),
                ));
            }
            match out {
                Some(sent) => {
                    let sn = sent.len();
                    let mut k: usize = 0;
                    while k < sn
                        invariant
                            sn == sent@.len(),
                            k <= sn,
                            head <= queue@.len(),
                            signal_views(queue@.subrange(head as int, queue@.len() as int))
                                =~= st.queue.drop_first() + signal_views(sent@).subrange(
                                0,
                                k as int,
                            ),
                        decreases sn - k,
                    {
                        let s2 = clone_signal(&sent[k]);
                        let ghost qprev = queue@;
                        proof {
                            assert(signal_views(sent@)[k as int] == sent@[k as int]@);
                        }
                        queue.push(s2);
                        proof {
                            let tail = qprev.subrange(head as int, qprev.len() as int);
                            assert(queue@.subrange(head as int, queue@.len() as int) =~= tail.push(
                                s2,
                            ));
                            assert(signal_views(tail.push(s2)) =~= signal_views(tail).push(s2@));
                            assert(st.queue.drop_first() + signal_views(sent@).subrange(
                                0,
                                k as int + 1,
                            ) =~= (st.queue.drop_first() + signal_views(sent@).subrange(
                                0,
                                k as int,
                            )).push(signal_views(sent@)[k as int]));
                            assert(signal_views(queue@.subrange(head as int, queue@.len() as int))
                                =~= st.queue.drop_first() + signal_views(sent@).subrange(
                                0,
                                k as int + 1,
                            ));
                        }
                        k = k + 1;
                    }
                    proof {
                        assert(signal_views(sent@).subrange(0, sn as int) =~= signal_views(sent@));
                    }
                },
                None => {
                    proof {
                        assert(st2.queue =~= st.queue.drop_first());
                    }
                },
            }
            proof {
                assert(st2.queue =~= signal_views(
                    queue@.subrange(head as int, queue@.len() as int),
                ));
                assert forall|f: nat|
                    #[trigger] run1(st2, (1000 - press) as nat, f) == run1(
                        init,
                        1000,
                        f + (used + 1),
                    ) by {
                    assert(run1(st, (1000 - press) as nat, (f + 1) as nat) == run1(
                        init,
                        1000,
                        (f + 1) as nat + used,
                    ));
                    assert(run1(st, (1000 - press) as nat, (f + 1) as nat) == run1(
                        sim_step(st),
                        (1000 - press) as nat,
                        f,
                    ));
                }
                st = st2;
                used = used + 1;
                assert(run1(st, (1000 - press) as nat, 0) is None);
                if used > fuel0 {
                    lemma_run1_mono(init, 1000, fuel0, used);
                }
            }
        }
        proof {
            assert(st.queue =~= Seq::<SignalV>::empty());
        }
    }
    proof {
        assert((1000 - press) as nat == 0);
        assert(run1(st, (1000 - press) as nat, 1) == run1(init, 1000, 1 + used));
        assert(run1(st, 0, 1) == Some((st.low, st.high)));
        assert(run1(init, 1000, 1 + used) == Some((st.low, st.high)));
    }
    crate::sat_mul(low, high)
}

/// Presses the button until a low pulse reaches `rx` and returns how
/// many presses that took, clipped at `usize::MAX`; an input whose
/// machine never sends one keeps it pressing forever.
pub fn solve_part2(content: String) -> (r: usize)
    requires
        input_ok(content@),
        exists|fuel: nat| (#[trigger] run2(init_sim(content@), 0, fuel)) is Some,
    ensures
        exists|fuel: nat|
            (#[trigger] run2(init_sim(content@), 0, fuel) matches Some(p) && r == usat(p)),
{
    let ghost init = init_sim(content@);
    let ghost fuel0: nat = choose|fuel: nat| (#[trigger] run2(init, 0, fuel)) is Some;
    let mut mods = create_modules(content);
    let rx: String = "rx".to_owned();
    let mut queue: Vec<Signal> = Vec::new();
    let mut head: usize = 0;
    let mut presses: usize = 0;
    let ghost mut gpresses: nat = 0;
    let ghost mut st = init;
    let ghost mut used: nat = 0;
    loop
        invariant
            mods.wf(),
            head == queue@.len(),
            st.modules == mods@,
            st.queue == Seq::<SignalV>::empty(),
            rx@ == "rx"@,
            init == init_sim(content@),
            presses == usat(gpresses),
            forall|f: nat| #[trigger] run2(st, gpresses, f) == run2(init, 0, f + used),
            run2(init, 0, fuel0) is Some,
            used <= fuel0,
        decreases fuel0 - used,
    {
        presses = crate::sat_add(presses, 1);
        let button = Signal {
            pulse: false,
            sender: "button".to_owned(),
            receiver: "broadcast".to_owned(),
        };
        queue.push(button);
        proof {
            let st2 = SimState {
                modules: st.modules,
                queue: seq![button_sig()],
                low: st.low,
                high: st.high,
            };
            assert forall|f: nat|
                #[trigger] run2(st2, (gpresses + 1) as nat, f) == run2(init, 0, f + (used + 1)) by {
                assert(run2(st, gpresses, (f + 1) as nat) == run2(init, 0, (f + 1) as nat + used));
            }
            st = st2;
            gpresses = gpresses + 1;
            used = used + 1;
            assert(signal_views(queue@.subrange(head as int, queue@.len() as int)) =~= st.queue);
            assert(run2(st, gpresses, 0) is None);
            if used > fuel0 {
                lemma_run2_mono(init, 0, fuel0, used);
            }
        }
        let ghost used_in: nat = used;
        while head < queue.len()
            invariant
                mods.wf(),
                head <= queue@.len(),
                st.modules == mods@,
                st.queue == signal_views(queue@.subrange(head as int, queue@.len() as int)),
                rx@ == "rx"@,
                init == init_sim(content@),
                presses == usat(gpresses),
                forall|f: nat| #[trigger] run2(st, gpresses, f) == run2(init, 0, f + used),
                run2(init, 0, fuel0) is Some,
                used_in <= used <= fuel0,
            decreases fuel0 - used,
        {
            let signal = clone_signal(&queue[head]);
            proof {
                assert(signal_views(queue@.subrange(head as int, queue@.len() as int))[0]
                    == queue@[head as int]@);
            }
            if signal.receiver == rx && !signal.pulse {
                proof {
                    assert(st.queue.len() == queue@.len() - head);
                    assert(st.queue[0] == queue@[head as int]@);
                    assert(signal@ == queue@[head as int]@);
                    assert(rx@ == "rx"@);
                    assert(st.queue[0].receiver == "rx"@);
                    assert(!st.queue[0].pulse);
                    assert(run2(st, gpresses, 1) == Some(gpresses));
                    assert(run2(init, 0, 1 + used) == Some(gpresses));
                    assert(run2(init_sim(content@), 0, (1 + used) as nat) matches Some(p)
                        && presses == usat(p));
                }
                return presses;
            }
            head = head + 1;
            let out = mods.deliver(signal);
            let ghost st2 = sim_step(st);
            proof {
                assert(st.queue.drop_first() =~= signal_views(
                    queue@.subrange(head as int, queue@.len() as int),
                ));
            }
            match out {
                Some(sent) => {
                    let sn = sent.len();
                    let mut k: usize = 0;
                    while k < sn
                        invariant
                            sn == sent@.len(),
                            k <= sn,
                            head <= queue@.len(),
                            signal_views(queue@.subrange(head as int, queue@.len() as int))
                                =~= st.queue.drop_first() + signal_views(sent@).subrange(
                                0,
                                k as int,
                            ),
                        decreases sn - k,
                    {
                        let s2 = clone_signal(&sent[k]);
                        let ghost qprev = queue@;
                        proof {
                            assert(signal_views(sent@)[k as int] == sent@[k as int]@);
                        }
                        queue.push(s2);
                        proof {
                            let tail = qprev.subrange(head as int, qprev.len() as int);
                            assert(queue@.subrange(head as int, queue@.len() as int) =~= tail.push(
                                s2,
                            ));
                            assert(signal_views(tail.push(s2)) =~= signal_views(tail).push(s2@));
                            assert(st.queue.drop_first() + signal_views(sent@).subrange(
                                0,
                                k as int + 1,
                            ) =~= (st.queue.drop_first() + signal_views(sent@).subrange(
                                0,
                                k as int,
                            )).push(signal_views(sent@)[k as int]));
                            assert(signal_views(queue@.subrange(head as int, queue@.len() as int))
                                =~= st.queue.drop_first() + signal_views(sent@).subrange(
                                0,
                                k as int + 1,
                            ));
                        }
                        k = k + 1;
                    }
                    proof {
                        assert(signal_views(sent@).subrange(0, sn as int) =~= signal_views(sent@));
                    }
                },
                None => {
                    proof {
                        assert(st2.queue =~= st.queue.drop_first());
                    }
                },
            }
            proof {
                assert(st2.queue =~= signal_views(
                    queue@.subrange(head as int, queue@.len() as int),
                ));
                assert forall|f: nat|
                    #[trigger] run2(st2, gpresses, f) == run2(init, 0, f + (used + 1)) by {
                    assert(run2(st, gpresses, (f + 1) as nat) == run2(
                        init,
                        0,
                        (f + 1) as nat + used,
                    ));
                    assert(run2(st, gpresses, (f + 1) as nat) == run2(sim_step(st), gpresses, f));
                }
                st = st2;
                used = used + 1;
                assert(run2(st, gpresses, 0) is None);
                if used > fuel0 {
                    lemma_run2_mono(init, 0, fuel0, used);
                }
            }
        }
        proof {
            assert(st.queue =~= Seq::<SignalV>::empty());
        }
    }
}

} // verus!
