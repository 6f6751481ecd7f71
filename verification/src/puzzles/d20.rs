//! A network of modules that send each other low and high pulses.
use crate::names::{find_name, place_of, texts};
use crate::numbers::{is_lcm, lcm};
use crate::text::{
    lines, parts, same_as, split_at_each, split_lines, split_once, split_once_spec, InputError,
};
use std::collections::VecDeque;
use vstd::array::array_as_slice;
use vstd::prelude::*;
use vstd::string::StringSliceAdditionalSpecFns;

verus! {

/// A module, with what it remembers: a flip-flop whether it is on, a
/// conjunction the last pulse from each of its inputs.
pub enum Module {
    BroadCast,
    FlipFlop(bool),
    Conjuction(Vec<bool>),
    UnTyped,
}

/// A module as a value.
pub enum ModuleModel {
    BroadCast,
    FlipFlop(bool),
    Conjuction(Seq<bool>),
    UnTyped,
}

/// A pulse on its way: the module and the input that it goes to, and whether
/// it is high.
#[derive(Clone, Copy, Debug, PartialEq, Eq)]
pub struct Pulse {
    pub idx_rx_module: usize,
    pub idx_rx_input: usize,
    pub high: bool,
}

/// The modules with what they remember, and the pulses on their way: the
/// next to arrive is the last of the sequence.
pub struct NetState {
    pub modules: Seq<ModuleModel>,
    pub queue: Seq<Pulse>,
}

/// The network: its modules, the module that the button sends to, the names
/// of the modules, where each module sends its pulses, and the pulses on their
/// way.
pub struct ModuleNetwork {
    modules: Vec<Module>,
    input_idx: usize,
    names: Vec<Vec<u8>>,
    outputs: Vec<Vec<(usize, usize)>>,
    queue: VecDeque<Pulse>,
}

impl View for Module {
    type V = ModuleModel;

    open spec fn view(&self) -> ModuleModel {
        match self {
            Module::BroadCast => ModuleModel::BroadCast,
            Module::FlipFlop(on) => ModuleModel::FlipFlop(*on),
            Module::Conjuction(memory) => ModuleModel::Conjuction(memory@),
            Module::UnTyped => ModuleModel::UnTyped,
        }
    }
}

/// Whether every remembered pulse is high.
pub open spec fn all_high(memory: Seq<bool>) -> bool {
    forall|i: int| 0 <= i < memory.len() ==> memory[i]
}

/// What a pulse does to a module: the module afterwards, and the pulse that
/// it sends, if it sends one. A broadcaster sends on what it gets; a flip-flop
/// ignores a high pulse, and on a low pulse turns over and sends high if it is
/// then on; a conjunction remembers the pulse and sends low if it remembers
/// only high pulses; any other module sends nothing.
pub open spec fn after_pulse(m: ModuleModel, idx_input: int, high: bool) -> (
    ModuleModel,
    Option<bool>,
) {
    match m {
        ModuleModel::BroadCast => (m, Some(high)),
        ModuleModel::FlipFlop(on) => if high {
            (m, None)
        } else {
            (ModuleModel::FlipFlop(!on), Some(!on))
        },
        ModuleModel::Conjuction(memory) => {
            let next = memory.update(idx_input, high);
            (ModuleModel::Conjuction(next), Some(!all_high(next)))
        },
        ModuleModel::UnTyped => (m, None),
    }
}

/// Whether a pulse can arrive: its module is there, and where that is a
/// conjunction, so is its input.
pub open spec fn pulse_ok(modules: Seq<ModuleModel>, module: int, input: int) -> bool {
    0 <= module < modules.len() && (match modules[module] {
        ModuleModel::Conjuction(memory) => 0 <= input < memory.len(),
        _ => true,
    })
}

/// The queue after a module has sent a pulse to the first `k` of its
/// targets, one after the other.
pub open spec fn with_sent(queue: Seq<Pulse>, targets: Seq<(usize, usize)>, high: bool, k: int) -> Seq<
    Pulse,
>
    decreases k,
{
    if k <= 0 {
        queue
    } else {
        seq![
            Pulse { idx_rx_module: targets[k - 1].0, idx_rx_input: targets[k - 1].1, high },
        ] + with_sent(queue, targets, high, k - 1)
    }
}

/// The state after the next pulse has arrived and its module has sent what it
/// sends.
pub open spec fn after_step(wiring: Seq<Seq<(usize, usize)>>, st: NetState) -> NetState {
    let p = st.queue.last();
    let (m, out) = after_pulse(st.modules[p.idx_rx_module as int], p.idx_rx_input as int, p.high);
    let modules = st.modules.update(p.idx_rx_module as int, m);
    let queue = st.queue.drop_last();
    match out {
        None => NetState { modules, queue },
        Some(high) => NetState {
            modules,
            queue: with_sent(
                queue,
                wiring[p.idx_rx_module as int],
                high,
                wiring[p.idx_rx_module as int].len() as int,
            ),
        },
    }
}

/// The state once no pulse is on its way any more, with the numbers of low
/// and of high pulses that have arrived until then; `None` if more than `fuel`
/// pulses arrive.
pub open spec fn settled(wiring: Seq<Seq<(usize, usize)>>, st: NetState, fuel: nat) -> Option<
    (NetState, nat, nat),
>
    decreases fuel,
{
    if st.queue.len() == 0 {
        Some((st, 0, 0))
    } else if fuel == 0 {
        None
    } else {
        match settled(wiring, after_step(wiring, st), (fuel - 1) as nat) {
            None => None,
            Some((end, low, high)) => if st.queue.last().high {
                Some((end, low, high + 1))
            } else {
                Some((end, low + 1, high))
            },
        }
    }
}

/// The state with a low pulse from the button on its way.
pub open spec fn pressed(st: NetState, input_idx: usize) -> NetState {
    NetState {
        modules: st.modules,
        queue: seq![Pulse { idx_rx_module: input_idx, idx_rx_input: 0, high: false }] + st.queue,
    }
}

/// The state after the button was pressed `n` times, each time once no pulse
/// was on its way, with the numbers of low and of high pulses that arrived;
/// `None` if after one of the presses more than `fuel` pulses arrive.
pub open spec fn after_presses(
    wiring: Seq<Seq<(usize, usize)>>,
    input_idx: usize,
    st: NetState,
    n: nat,
    fuel: nat,
) -> Option<(NetState, nat, nat)>
    decreases n,
{
    if n == 0 {
        Some((st, 0, 0))
    } else {
        match settled(wiring, pressed(st, input_idx), fuel) {
            None => None,
            Some((mid, low, high)) => match after_presses(
                wiring,
                input_idx,
                mid,
                (n - 1) as nat,
                fuel,
            ) {
                None => None,
                Some((end, more_low, more_high)) => Some((end, low + more_low, high + more_high)),
            },
        }
    }
}

/// The counts of a run with the counts of what came before it.
pub open spec fn with_counts(run: Option<(NetState, nat, nat)>, low: nat, high: nat) -> Option<
    (NetState, nat, nat),
> {
    match run {
        None => None,
        Some((end, more_low, more_high)) => Some((end, low + more_low, high + more_high)),
    }
}

/// How often the button has been pressed when the module `target` first gets
/// a low pulse, where it had been pressed `presses` times before: the pulses on
/// their way arrive one by one, and whenever none is left the button is
/// pressed. `None` if that takes more than `fuel` arrivals and presses.
pub open spec fn first_low(
    wiring: Seq<Seq<(usize, usize)>>,
    input_idx: usize,
    st: NetState,
    target: usize,
    presses: nat,
    fuel: nat,
) -> Option<nat>
    decreases fuel,
{
    if fuel == 0 {
        None
    } else if st.queue.len() == 0 {
        first_low(wiring, input_idx, pressed(st, input_idx), target, presses + 1, (fuel - 1) as nat)
    } else if st.queue.last().idx_rx_module == target && !st.queue.last().high {
        Some(presses)
    } else {
        first_low(wiring, input_idx, after_step(wiring, st), target, presses, (fuel - 1) as nat)
    }
}

/// A module that remembers nothing: a flip-flop that is off, a conjunction
/// that has seen only low pulses.
pub open spec fn cleared(m: ModuleModel) -> ModuleModel {
    match m {
        ModuleModel::FlipFlop(_) => ModuleModel::FlipFlop(false),
        ModuleModel::Conjuction(memory) => ModuleModel::Conjuction(
            Seq::new(memory.len(), |i: int| false),
        ),
        _ => m,
    }
}

/// The modules, all remembering nothing.
pub open spec fn all_cleared(modules: Seq<ModuleModel>) -> Seq<ModuleModel> {
    Seq::new(modules.len(), |i: int| cleared(modules[i]))
}

/// The least common multiple of four numbers, taken two at a time from the
/// left.
pub open spec fn is_lcm_of_four(a: int, b: int, c: int, d: int, v: int) -> bool {
    exists|l1: int, l2: int| is_lcm(a, b, l1) && #[trigger] is_lcm(l1, c, l2) && is_lcm(l2, d, v)
}

/// The name of the module that the button sends to.
pub open spec fn broadcaster() -> Seq<u8> {
    seq![98u8, 114u8, 111u8, 97u8, 100u8, 99u8, 97u8, 115u8, 116u8, 101u8, 114u8]
}

/// What a line says of a module: its kind, as the byte `b` for the
/// broadcaster, `%` for a flip-flop and `&` for a conjunction; its name; and the
/// names of the modules that it sends to.
pub open spec fn line_of(line: Seq<u8>) -> Option<(u8, Seq<u8>, Seq<Seq<u8>>)> {
    match split_once_spec(line, seq![32u8, 45u8, 62u8, 32u8]) {
        None => None,
        Some((head, tail)) => {
            let outs = parts(tail, seq![44u8, 32u8]);
            if head == broadcaster() {
                Some((98u8, head, outs))
            } else if head.len() > 0 && head[0] == 37 {
                Some((37u8, head.drop_first(), outs))
            } else if head.len() > 0 && head[0] == 38 {
                Some((38u8, head.drop_first(), outs))
            } else {
                None
            }
        },
    }
}

/// What line `j` says.
pub open spec fn told(ls: Seq<Seq<u8>>, j: int) -> (u8, Seq<u8>, Seq<Seq<u8>>) {
    line_of(ls[j])->Some_0
}

/// The name of the module that line `j` sends to as number `q`.
pub open spec fn out_of(ls: Seq<Seq<u8>>, j: int, q: int) -> Seq<u8> {
    told(ls, j).2[q]
}

/// Whether one of the first `k` lines describes a module of the name and of
/// the kind.
pub open spec fn is_head(ls: Seq<Seq<u8>>, k: int, name: Seq<u8>, kind: u8) -> bool {
    exists|j: int| 0 <= j < k && (#[trigger] told(ls, j)).1 == name && told(ls, j).0 == kind
}

/// Whether one of the first `k` lines describes a module of the name.
pub open spec fn is_named_head(ls: Seq<Seq<u8>>, k: int, name: Seq<u8>) -> bool {
    exists|j: int| 0 <= j < k && (#[trigger] told(ls, j)).1 == name
}

/// Whether one of the first `k` lines sends to a module of the name, or
/// line `k` does so among the first `part` modules that it sends to.
pub open spec fn is_target(ls: Seq<Seq<u8>>, k: int, part: int, name: Seq<u8>) -> bool {
    exists|j: int, q: int|
        #[trigger] out_of(ls, j, q) == name && 0 <= q && ((0 <= j < k && q < told(ls, j).2.len()) || (j
            == k && q < part))
}

/// Whether no two of the first `k` lines describe a module of one name.
pub open spec fn heads_differ(ls: Seq<Seq<u8>>, k: int) -> bool {
    forall|a: int, b: int| 0 <= a < b < k ==> (#[trigger] told(ls, a)).1 != (#[trigger] told(ls, b)).1
}

/// To how many modules the first `k` lines send.
pub open spec fn sends(ls: Seq<Seq<u8>>, k: int) -> int
    decreases k,
{
    if k <= 0 {
        0
    } else {
        sends(ls, k - 1) + told(ls, k - 1).2.len()
    }
}

/// Whether a text is a network that can be read: every line describes a
/// module, no two lines a module of one name, the lines do not send to more
/// modules than can be counted, a module is named `broadcaster`, and it is no
/// conjunction that nothing sends to.
pub open spec fn is_readable(text: Seq<u8>) -> bool {
    let ls = lines(text);
    let n = ls.len() as int;
    &&& forall|i: int| 0 <= i < n ==> (#[trigger] line_of(ls[i])) is Some
    &&& heads_differ(ls, n)
    &&& sends(ls, n) <= usize::MAX
    &&& is_named_head(ls, n, broadcaster()) || is_target(ls, n, 0, broadcaster())
    &&& !(is_head(ls, n, broadcaster(), 38) && !is_target(ls, n, 0, broadcaster()))
}

/// Whether the module of the name is in the list and has an input.
pub open spec fn is_fed(names: Seq<Vec<u8>>, n_inputs: Seq<usize>, name: Seq<u8>) -> bool {
    exists|t: int| 0 <= t < names.len() && (#[trigger] names[t])@ == name && n_inputs[t] > 0
}

/// Whether the module of the name is in the list, with the kind.
pub open spec fn is_listed(names: Seq<Vec<u8>>, kinds: Seq<u8>, name: Seq<u8>, kind: u8) -> bool {
    exists|m: int| 0 <= m < names.len() && (#[trigger] names[m])@ == name && kinds[m] == kind
}

/// Of tables that say what the lines say: every module that a line describes
/// is in the list with its kind, and every module that a line sends to is in
/// the list and has an input.
pub proof fn lemma_tables(
    ls: Seq<Seq<u8>>,
    n: int,
    names: Seq<Vec<u8>>,
    kinds: Seq<u8>,
    n_inputs: Seq<usize>,
    outputs: Seq<Vec<(usize, usize)>>,
)
    requires
        kinds.len() == names.len(),
        n_inputs.len() == names.len(),
        outputs.len() == names.len(),
        forall|j: int| 0 <= j < n ==> (#[trigger] line_of(ls[j])) is Some,
        forall|j: int|
            0 <= j < n ==> tables_say(names, kinds, outputs, (#[trigger] line_of(ls[j]))->Some_0),
        forall|m: int, k: int|
            0 <= m < outputs.len() && 0 <= k < outputs[m]@.len() ==> (#[trigger] outputs[m]@[k]).0
                < names.len() && outputs[m]@[k].1 < n_inputs[outputs[m]@[k].0 as int],
    ensures
        forall|j: int, q: int|
            0 <= j < n && 0 <= q < told(ls, j).2.len() ==> #[trigger] is_fed(
                names,
                n_inputs,
                out_of(ls, j, q),
            ),
        forall|j: int|
            0 <= j < n ==> #[trigger] is_listed(names, kinds, told(ls, j).1, told(ls, j).0),
{
    assert forall|j: int, q: int| 0 <= j < n && 0 <= q < told(ls, j).2.len() implies #[trigger] is_fed(
        names,
        n_inputs,
        out_of(ls, j, q),
    ) by {
        assert(line_of(ls[j]) is Some);
        assert(tables_say(names, kinds, outputs, line_of(ls[j])->Some_0));
        let m = choose|m: int| #[trigger] said_of(names, kinds, outputs, m, line_of(ls[j])->Some_0);
        let t = outputs[m]@[q].0 as int;
        assert(outputs[m]@[q].1 < n_inputs[t]);
        assert(names[t]@ == out_of(ls, j, q));
    }
    assert forall|j: int| 0 <= j < n implies #[trigger] is_listed(
        names,
        kinds,
        told(ls, j).1,
        told(ls, j).0,
    ) by {
        assert(line_of(ls[j]) is Some);
        assert(tables_say(names, kinds, outputs, line_of(ls[j])->Some_0));
        let m = choose|m: int| #[trigger] said_of(names, kinds, outputs, m, line_of(ls[j])->Some_0);
        assert(names[m]@ == told(ls, j).1);
    }
}

/// Whether a module named `broadcaster` can take the pulse of the button, from
/// what is found in the list of names: it must be there, and be no conjunction
/// without an input.
pub proof fn lemma_readable(
    ls: Seq<Seq<u8>>,
    n: int,
    names: Seq<Vec<u8>>,
    kinds: Seq<u8>,
    n_inputs: Seq<usize>,
    found: Option<int>,
)
    requires
        kinds.len() == names.len(),
        n_inputs.len() == names.len(),
        texts(names).no_duplicates(),
        forall|j: int, q: int|
            0 <= j < n && 0 <= q < told(ls, j).2.len() ==> #[trigger] is_fed(
                names,
                n_inputs,
                out_of(ls, j, q),
            ),
        forall|j: int|
            0 <= j < n ==> #[trigger] is_listed(names, kinds, told(ls, j).1, told(ls, j).0),
        forall|m: int|
            0 <= m < names.len() && kinds[m] != 0 ==> is_head(ls, n, (#[trigger] names[m])@, kinds[m]),
        forall|m: int|
            0 <= m < names.len() ==> is_named_head(ls, n, (#[trigger] names[m])@) || is_target(
                ls,
                n,
                0,
                names[m]@,
            ),
        forall|t: int|
            0 <= t < names.len() && n_inputs[t] > 0 ==> is_target(ls, n, 0, (#[trigger] names[t])@),
        match found {
            Some(i) => 0 <= i < names.len() && names[i]@ == broadcaster(),
            None => forall|j: int| 0 <= j < names.len() ==> (#[trigger] names[j])@ != broadcaster(),
        },
    ensures
        (is_named_head(ls, n, broadcaster()) || is_target(ls, n, 0, broadcaster())) <==> found is Some,
        found is Some ==> ((is_head(ls, n, broadcaster(), 38) && !is_target(ls, n, 0, broadcaster()))
            <==> (kinds[found->Some_0] == 38 && n_inputs[found->Some_0] == 0)),
{
    let b = broadcaster();
    if is_named_head(ls, n, b) {
        let j = choose|j: int| 0 <= j < n && (#[trigger] told(ls, j)).1 == b;
        assert(is_listed(names, kinds, told(ls, j).1, told(ls, j).0));
        let m = choose|m: int|
            0 <= m < names.len() && (#[trigger] names[m])@ == told(ls, j).1 && kinds[m] == told(ls, j).0;
        assert(names[m]@ == b);
    }
    if is_target(ls, n, 0, b) {
        let (j, q) = choose|j: int, q: int|
            #[trigger] out_of(ls, j, q) == b && 0 <= q && ((0 <= j < n && q < told(ls, j).2.len()) || (j
                == n && q < 0));
        assert(is_fed(names, n_inputs, out_of(ls, j, q)));
        let t = choose|t: int|
            0 <= t < names.len() && (#[trigger] names[t])@ == out_of(ls, j, q) && n_inputs[t] > 0;
        assert(names[t]@ == b);
        if found is Some {
            let i = found->Some_0;
            assert(texts(names)[t] == texts(names)[i]);
            assert(t == i);
        }
    }
    if found is Some {
        let i = found->Some_0;
        assert(is_named_head(ls, n, names[i]@) || is_target(ls, n, 0, names[i]@));
        if is_head(ls, n, b, 38) {
            let j = choose|j: int| 0 <= j < n && (#[trigger] told(ls, j)).1 == b && told(ls, j).0 == 38;
            assert(is_listed(names, kinds, told(ls, j).1, told(ls, j).0));
            let m = choose|m: int|
                0 <= m < names.len() && (#[trigger] names[m])@ == told(ls, j).1 && kinds[m] == told(
                    ls,
                    j,
                ).0;
            assert(texts(names)[m] == texts(names)[i]);
            assert(m == i);
        }
        if kinds[i] == 38 {
            assert(is_head(ls, n, names[i]@, kinds[i]));
        }
        if n_inputs[i] > 0 {
            assert(is_target(ls, n, 0, names[i]@));
        }
    }
}

/// Of the list of names after the module that line `i` describes was looked
/// up in it: what held of the names before holds of them now, and the module
/// is described by one of the first `i + 1` lines.
pub proof fn lemma_head_placed(
    ls: Seq<Seq<u8>>,
    i: int,
    names_before: Seq<Vec<u8>>,
    names: Seq<Vec<u8>>,
    kinds_before: Seq<u8>,
    kinds: Seq<u8>,
    inputs_before: Seq<usize>,
    n_inputs: Seq<usize>,
    idx: int,
)
    requires
        0 <= i,
        names_before.len() <= names.len() <= names_before.len() + 1,
        forall|m: int| 0 <= m < names_before.len() ==> (#[trigger] names[m]) == names_before[m],
        kinds_before.len() == names_before.len(),
        inputs_before.len() == names_before.len(),
        kinds.len() == names.len(),
        n_inputs.len() == names.len(),
        0 <= idx < names.len(),
        names.len() == names_before.len() || idx == names_before.len(),
        names[idx]@ == told(ls, i).1,
        forall|m: int| 0 <= m < names_before.len() ==> (#[trigger] kinds[m]) == kinds_before[m],
        forall|m: int| names_before.len() <= m < names.len() ==> (#[trigger] kinds[m]) == 0,
        forall|m: int| 0 <= m < names_before.len() ==> (#[trigger] n_inputs[m]) == inputs_before[m],
        forall|m: int| names_before.len() <= m < names.len() ==> (#[trigger] n_inputs[m]) == 0,
        forall|m: int|
            0 <= m < names_before.len() && kinds_before[m] != 0 ==> is_head(
                ls,
                i,
                (#[trigger] names_before[m])@,
                kinds_before[m],
            ),
        forall|m: int|
            0 <= m < names_before.len() ==> is_named_head(ls, i, (#[trigger] names_before[m])@)
                || is_target(ls, i, 0, names_before[m]@),
        forall|z: int|
            0 <= z < names_before.len() && inputs_before[z] > 0 ==> is_target(
                ls,
                i,
                0,
                (#[trigger] names_before[z])@,
            ),
    ensures
        forall|m: int|
            0 <= m < names.len() && kinds[m] != 0 ==> is_head(ls, i, (#[trigger] names[m])@, kinds[m]),
        forall|m: int|
            0 <= m < names.len() ==> is_named_head(ls, i + 1, (#[trigger] names[m])@) || is_target(
                ls,
                i,
                0,
                names[m]@,
            ),
        forall|z: int|
            0 <= z < names.len() && n_inputs[z] > 0 ==> is_target(ls, i, 0, (#[trigger] names[z])@),
{
    assert forall|m: int| 0 <= m < names.len() && kinds[m] != 0 implies is_head(
        ls,
        i,
        (#[trigger] names[m])@,
        kinds[m],
    ) by {
        assert(m < names_before.len());
        assert(names[m] == names_before[m]);
    }
    assert forall|m: int| 0 <= m < names.len() implies is_named_head(ls, i + 1, (#[trigger] names[m])@)
        || is_target(ls, i, 0, names[m]@) by {
        if m < names_before.len() {
            assert(names[m] == names_before[m]);
            lemma_head_more(ls, i, names[m]@, 0, i + 1);
        } else {
            assert(m == idx);
            assert(told(ls, i).1 == names[m]@);
        }
    }
    assert forall|z: int| 0 <= z < names.len() && n_inputs[z] > 0 implies is_target(
        ls,
        i,
        0,
        (#[trigger] names[z])@,
    ) by {
        assert(z < names_before.len());
        assert(names[z] == names_before[z]);
    }
}

/// Of the list of names after the module that line `i` sends to as number
/// `k` was looked up in it and got one more input: what held of the names
/// before holds of them now, with that module among those that are sent to.
pub proof fn lemma_target_placed(
    ls: Seq<Seq<u8>>,
    i: int,
    k: int,
    names_before: Seq<Vec<u8>>,
    names: Seq<Vec<u8>>,
    kinds_before: Seq<u8>,
    kinds: Seq<u8>,
    inputs_before: Seq<usize>,
    n_inputs: Seq<usize>,
    t: int,
)
    requires
        0 <= i,
        0 <= k,
        names_before.len() <= names.len(),
        forall|m: int| 0 <= m < names_before.len() ==> (#[trigger] names[m]) == names_before[m],
        kinds_before.len() == names_before.len(),
        inputs_before.len() == names_before.len(),
        kinds.len() == names.len(),
        n_inputs.len() == names.len(),
        0 <= t < names.len(),
        names[t]@ == out_of(ls, i, k),
        forall|z: int|
            0 <= z < names.len() && z != t ==> z < names_before.len() && (#[trigger] n_inputs[z])
                == inputs_before[z],
        forall|m: int| 0 <= m < names_before.len() ==> (#[trigger] kinds[m]) == kinds_before[m],
        forall|m: int| names_before.len() <= m < names.len() ==> (#[trigger] kinds[m]) == 0,
        forall|m: int|
            0 <= m < names_before.len() && kinds_before[m] != 0 ==> is_head(
                ls,
                i,
                (#[trigger] names_before[m])@,
                kinds_before[m],
            ),
        forall|m: int|
            0 <= m < names_before.len() ==> is_named_head(ls, i + 1, (#[trigger] names_before[m])@)
                || is_target(ls, i, k, names_before[m]@),
        forall|z: int|
            0 <= z < names_before.len() && inputs_before[z] > 0 ==> is_target(
                ls,
                i,
                k,
                (#[trigger] names_before[z])@,
            ),
    ensures
        forall|m: int|
            0 <= m < names.len() && kinds[m] != 0 ==> is_head(ls, i, (#[trigger] names[m])@, kinds[m]),
        forall|m: int|
            0 <= m < names.len() ==> is_named_head(ls, i + 1, (#[trigger] names[m])@) || is_target(
                ls,
                i,
                k + 1,
                names[m]@,
            ),
        forall|z: int|
            0 <= z < names.len() && n_inputs[z] > 0 ==> is_target(ls, i, k + 1, (#[trigger] names[z])@),
{
    assert(is_target(ls, i, k + 1, names[t]@));
    assert forall|m: int| 0 <= m < names.len() && kinds[m] != 0 implies is_head(
        ls,
        i,
        (#[trigger] names[m])@,
        kinds[m],
    ) by {
        assert(m < names_before.len());
        assert(names[m] == names_before[m]);
    }
    assert forall|m: int| 0 <= m < names.len() implies is_named_head(ls, i + 1, (#[trigger] names[m])@)
        || is_target(ls, i, k + 1, names[m]@) by {
        if m != t {
            assert(n_inputs[m] == inputs_before[m]);
            assert(names[m] == names_before[m]);
            if is_target(ls, i, k, names[m]@) {
                lemma_target_more(ls, i, k, names[m]@, i, k + 1);
            }
        }
    }
    assert forall|z: int| 0 <= z < names.len() && n_inputs[z] > 0 implies is_target(
        ls,
        i,
        k + 1,
        (#[trigger] names[z])@,
    ) by {
        if z != t {
            assert(n_inputs[z] == inputs_before[z]);
            assert(names[z] == names_before[z]);
            lemma_target_more(ls, i, k, names[z]@, i, k + 1);
        }
    }
}

/// Of the tables after line `i` was read into them: they say what the
/// first `i + 1` lines say.
pub proof fn lemma_line_read(
    ls: Seq<Seq<u8>>,
    i: int,
    names_before: Seq<Vec<u8>>,
    kinds_before: Seq<u8>,
    outputs_before: Seq<Vec<(usize, usize)>>,
    names: Seq<Vec<u8>>,
    kinds_late: Seq<u8>,
    kinds: Seq<u8>,
    outputs: Seq<Vec<(usize, usize)>>,
    n_inputs: Seq<usize>,
    idx: int,
)
    requires
        0 <= i,
        forall|j: int| 0 <= j < i ==> (#[trigger] line_of(ls[j])) is Some,
        forall|j: int|
            0 <= j < i ==> tables_say(
                names_before,
                kinds_before,
                outputs_before,
                (#[trigger] line_of(ls[j]))->Some_0,
            ),
        heads_differ(ls, i),
        told(ls, i).0 != 0,
        kinds_before.len() == names_before.len(),
        outputs_before.len() == names_before.len(),
        kinds.len() == names.len(),
        kinds_late.len() == names.len(),
        outputs.len() == names.len(),
        n_inputs.len() == names.len(),
        texts(names).no_duplicates(),
        0 <= idx < names.len(),
        names[idx]@ == told(ls, i).1,
        kinds_late[idx] == 0,
        kinds == kinds_late.update(idx, told(ls, i).0),
        names_before.len() <= names.len(),
        forall|m: int| 0 <= m < names_before.len() ==> (#[trigger] names[m]) == names_before[m],
        forall|m: int| 0 <= m < names_before.len() ==> (#[trigger] kinds_late[m]) == kinds_before[m],
        forall|m: int|
            0 <= m < names_before.len() && m != idx ==> (#[trigger] outputs[m]) == outputs_before[m],
        outputs[idx]@.len() == told(ls, i).2.len(),
        forall|q: int|
            0 <= q < told(ls, i).2.len() ==> (#[trigger] outputs[idx]@[q]).0 < names.len()
                && names[outputs[idx]@[q].0 as int]@ == told(ls, i).2[q],
        forall|m: int|
            0 <= m < names.len() && kinds_late[m] != 0 ==> is_head(
                ls,
                i,
                (#[trigger] names[m])@,
                kinds_late[m],
            ),
        forall|m: int|
            0 <= m < names.len() ==> is_named_head(ls, i + 1, (#[trigger] names[m])@) || is_target(
                ls,
                i,
                told(ls, i).2.len() as int,
                names[m]@,
            ),
        forall|z: int|
            0 <= z < names.len() && n_inputs[z] > 0 ==> is_target(
                ls,
                i,
                told(ls, i).2.len() as int,
                (#[trigger] names[z])@,
            ),
    ensures
        sends(ls, i + 1) == sends(ls, i) + told(ls, i).2.len(),
        forall|m: int|
            0 <= m < names.len() && kinds[m] != 0 ==> is_head(
                ls,
                i + 1,
                (#[trigger] names[m])@,
                kinds[m],
            ),
        forall|m: int|
            0 <= m < names.len() ==> is_named_head(ls, i + 1, (#[trigger] names[m])@) || is_target(
                ls,
                i + 1,
                0,
                names[m]@,
            ),
        forall|z: int|
            0 <= z < names.len() && n_inputs[z] > 0 ==> is_target(ls, i + 1, 0, (#[trigger] names[z])@),
        heads_differ(ls, i + 1),
        forall|j: int|
            0 <= j < i ==> tables_say(names, kinds, outputs, (#[trigger] line_of(ls[j]))->Some_0),
        tables_say(names, kinds, outputs, told(ls, i)),
{
    let said = told(ls, i);
    let n_outs = said.2.len() as int;
    assert forall|m: int| 0 <= m < names.len() && kinds[m] != 0 implies is_head(
        ls,
        i + 1,
        (#[trigger] names[m])@,
        kinds[m],
    ) by {
        if m == idx {
            assert(told(ls, i).1 == names[m]@ && told(ls, i).0 == kinds[m]);
        } else {
            assert(kinds_late[m] == kinds[m]);
            lemma_head_more(ls, i, names[m]@, kinds[m], i + 1);
        }
    }
    assert forall|m: int| 0 <= m < names.len() implies is_named_head(ls, i + 1, (#[trigger] names[m])@)
        || is_target(ls, i + 1, 0, names[m]@) by {
        if is_target(ls, i, n_outs, names[m]@) {
            lemma_target_more(ls, i, n_outs, names[m]@, i + 1, 0);
        }
    }
    assert forall|z: int| 0 <= z < names.len() && n_inputs[z] > 0 implies is_target(
        ls,
        i + 1,
        0,
        (#[trigger] names[z])@,
    ) by {
        lemma_target_more(ls, i, n_outs, names[z]@, i + 1, 0);
    }
    assert forall|x: int, y: int| 0 <= x < y < i + 1 implies (#[trigger] told(ls, x)).1 != (
    #[trigger] told(ls, y)).1 by {
        if y == i && told(ls, x).1 == told(ls, y).1 {
            assert(line_of(ls[x]) is Some);
            assert(tables_say(names_before, kinds_before, outputs_before, line_of(ls[x])->Some_0));
            let m = choose|m: int| #[trigger]
                said_of(names_before, kinds_before, outputs_before, m, line_of(ls[x])->Some_0);
            assert(0 <= m < names_before.len());
            assert(names[m] == names_before[m]);
            assert(names_before[m]@ == told(ls, x).1);
            assert(texts(names)[m] == names[m]@);
            assert(texts(names)[idx] == names[idx]@);
            assert(texts(names)[m] == texts(names)[idx]);
            assert(m == idx);
            assert(kinds_late[m] == kinds_before[m]);
            assert(false);
        }
    }
    assert(said_of(names, kinds, outputs, idx, said));
    assert forall|j: int| 0 <= j < i implies tables_say(
        names,
        kinds,
        outputs,
        (#[trigger] line_of(ls[j]))->Some_0,
    ) by {
        assert(tables_say(names_before, kinds_before, outputs_before, line_of(ls[j])->Some_0));
        let m = choose|m: int| #[trigger]
            said_of(names_before, kinds_before, outputs_before, m, line_of(ls[j])->Some_0);
        assert(names[m] == names_before[m]);
        assert(kinds_late[m] == kinds_before[m]);
        assert(kinds_before[m] != 0);
        assert(m != idx);
        assert(outputs[m] == outputs_before[m]);
        assert(said_of(names, kinds, outputs, m, line_of(ls[j])->Some_0));
    }
}

/// The lines send to no fewer modules when more lines are counted.
pub proof fn lemma_sends(ls: Seq<Seq<u8>>, a: int, b: int)
    requires
        a <= b,
    ensures
        0 <= sends(ls, a) <= sends(ls, b),
    decreases b,
{
    if b > 0 {
        if a < b {
            lemma_sends(ls, a, b - 1);
        } else {
            lemma_sends(ls, a - 1, b - 1);
        }
    }
}

/// What is sent to stays sent to when more is looked at.
pub proof fn lemma_target_more(ls: Seq<Seq<u8>>, k: int, part: int, name: Seq<u8>, k2: int, part2: int)
    requires
        is_target(ls, k, part, name),
        (k == k2 && part <= part2) || (k < k2 && part <= told(ls, k).2.len()),
        0 <= part2,
        0 <= k,
    ensures
        is_target(ls, k2, part2, name),
{
    let (j, q) = choose|j: int, q: int|
        #[trigger] out_of(ls, j, q) == name && 0 <= q && ((0 <= j < k && q < told(ls, j).2.len()) || (j
            == k && q < part));
    assert(out_of(ls, j, q) == name && 0 <= q && ((0 <= j < k2 && q < told(ls, j).2.len()) || (j == k2
        && q < part2)));
}

/// A module that is described stays described when more lines are looked at.
pub proof fn lemma_head_more(ls: Seq<Seq<u8>>, k: int, name: Seq<u8>, kind: u8, k2: int)
    requires
        k <= k2,
    ensures
        is_head(ls, k, name, kind) ==> is_head(ls, k2, name, kind),
        is_named_head(ls, k, name) ==> is_named_head(ls, k2, name),
        is_head(ls, k, name, kind) ==> is_named_head(ls, k, name),
{
    if is_head(ls, k, name, kind) {
        let j = choose|j: int| 0 <= j < k && (#[trigger] told(ls, j)).1 == name && told(ls, j).0 == kind;
        assert(0 <= j < k2 && told(ls, j).1 == name && told(ls, j).0 == kind);
    }
    if is_named_head(ls, k, name) {
        let j = choose|j: int| 0 <= j < k && (#[trigger] told(ls, j)).1 == name;
        assert(0 <= j < k2 && told(ls, j).1 == name);
    }
}

/// The byte that stands for the kind of a module; zero for a module that no
/// line describes.
pub open spec fn kind_byte(m: ModuleModel) -> u8 {
    match m {
        ModuleModel::BroadCast => 98,
        ModuleModel::FlipFlop(_) => 37,
        ModuleModel::Conjuction(_) => 38,
        ModuleModel::UnTyped => 0,
    }
}

/// Whether a product on the way to the least common multiple of four
/// numbers, taken two at a time from the left, does not fit in 64 bits.
pub open spec fn lcm_breaks(a: int, b: int, c: int, d: int) -> bool {
    a * b > u64::MAX || exists|l1: int, l2: int| #[trigger] breaks_late(a, b, c, d, l1, l2)
}

/// Whether `l1` is the least common multiple of `a` and `b`, and its product
/// with `c` does not fit in 64 bits, or `l2` is the least common multiple of
/// `l1` and `c`, and its product with `d` does not fit.
pub open spec fn breaks_late(a: int, b: int, c: int, d: int, l1: int, l2: int) -> bool {
    is_lcm(a, b, l1) && (l1 * c > u64::MAX || (is_lcm(l1, c, l2) && l2 * d > u64::MAX))
}

/// Every pulse of the queue can arrive.
pub open spec fn queue_ok(modules: Seq<ModuleModel>, queue: Seq<Pulse>) -> bool {
    forall|i: int|
        0 <= i < queue.len() ==> pulse_ok(
            modules,
            (#[trigger] queue[i]).idx_rx_module as int,
            queue[i].idx_rx_input as int,
        )
}

/// Every module has its list of targets, and every target can take a pulse.
pub open spec fn wiring_ok(modules: Seq<ModuleModel>, wiring: Seq<Seq<(usize, usize)>>) -> bool {
    &&& wiring.len() == modules.len()
    &&& forall|m: int, k: int|
        0 <= m < wiring.len() && 0 <= k < wiring[m].len() ==> pulse_ok(
            modules,
            (#[trigger] wiring[m][k]).0 as int,
            wiring[m][k].1 as int,
        )
}

/// Modules that remember nothing have nothing more to forget.
pub proof fn lemma_cleared_twice(modules: Seq<ModuleModel>)
    ensures
        all_cleared(all_cleared(modules)) == all_cleared(modules),
{
    assert forall|i: int| 0 <= i < modules.len() implies cleared(cleared(modules[i])) == cleared(
        modules[i],
    ) by {
        match modules[i] {
            ModuleModel::Conjuction(memory) => {
                assert(Seq::new(Seq::new(memory.len(), |i: int| false).len(), |i: int| false)
                    =~= Seq::new(memory.len(), |i: int| false));
            },
            _ => {},
        }
    }
    assert(all_cleared(all_cleared(modules)) =~= all_cleared(modules));
}

/// The arrival of a pulse does not change what the modules are once they
/// remember nothing.
pub proof fn lemma_cleared_after_step(wiring: Seq<Seq<(usize, usize)>>, st: NetState)
    requires
        st.queue.len() > 0,
        queue_ok(st.modules, st.queue),
    ensures
        all_cleared(after_step(wiring, st).modules) == all_cleared(st.modules),
{
    let p = st.queue.last();
    assert(pulse_ok(st.modules, p.idx_rx_module as int, p.idx_rx_input as int));
    let after = after_step(wiring, st).modules;
    assert forall|i: int| 0 <= i < st.modules.len() implies cleared(after[i]) == cleared(
        st.modules[i],
    ) by {
        if i == p.idx_rx_module {
            match st.modules[i] {
                ModuleModel::Conjuction(memory) => {
                    assert(Seq::new(
                        memory.update(p.idx_rx_input as int, p.high).len(),
                        |i: int| false,
                    ) =~= Seq::new(memory.len(), |i: int| false));
                },
                _ => {},
            }
        }
    }
    assert(all_cleared(after) =~= all_cleared(st.modules));
}

/// A pulse changes what a module remembers, not what it is or how many
/// inputs it has: the pulses that could arrive before can arrive after.
pub proof fn lemma_pulse_keeps_shape(modules: Seq<ModuleModel>, at: int, input: int, high: bool, m: int, i: int)
    requires
        pulse_ok(modules, at, input),
        pulse_ok(modules, m, i),
    ensures
        pulse_ok(modules.update(at, after_pulse(modules[at], input, high).0), m, i),
{
}

impl Module {
    /// Takes a pulse on one of the inputs: the module changes as
    /// `after_pulse` says, and the result is the pulse that it sends, if any.
    pub fn process_pulse(&mut self, idx_input: usize, input_high: bool) -> (r: Option<bool>)
        requires
            old(self)@ is Conjuction ==> idx_input < old(self)@->Conjuction_0.len(),
        ensures
            (final(self)@, r) == after_pulse(old(self)@, idx_input as int, input_high),
    {
        let (next, out) = self.pulsed(idx_input, input_high);
        *self = next;
        out
    }

    /// The module after a pulse, and the pulse that it sends.
    pub fn pulsed(&self, idx_input: usize, input_high: bool) -> (r: (Module, Option<bool>))
        requires
            self@ is Conjuction ==> idx_input < self@->Conjuction_0.len(),
        ensures
            (r.0@, r.1) == after_pulse(self@, idx_input as int, input_high),
    {
        match self {
            Module::BroadCast => (Module::BroadCast, Some(input_high)),
            Module::FlipFlop(on) => {
                if input_high {
                    (Module::FlipFlop(*on), None)
                } else {
                    (Module::FlipFlop(!*on), Some(!*on))
                }
            },
            Module::Conjuction(memory) => {
                let mut next: Vec<bool> = Vec::new();
                let mut all = true;
                let mut i: usize = 0;
                while i < memory.len()
                    invariant
                        i <= memory.len(),
                        idx_input < memory.len(),
                        next@ == memory@.update(idx_input as int, input_high).take(i as int),
                        all == all_high(next@),
                    decreases memory.len() - i,
                {
                    let bit = if i == idx_input {
                        input_high
                    } else {
                        memory[i]
                    };
                    let ghost before = next@;
                    next.push(bit);
                    proof {
                        assert(next@ =~= memory@.update(idx_input as int, input_high).take(i + 1));
                        if all_high(before) && bit {
                            assert forall|j: int| 0 <= j < next@.len() implies next@[j] by {
                                if j < before.len() {
                                    assert(before[j]);
                                }
                            }
                        } else if !bit {
                            assert(!next@[i as int]);
                        } else {
                            let j = choose|j: int| 0 <= j < before.len() && !before[j];
                            assert(!next@[j]);
                        }
                    }
                    all = all && bit;
                    i += 1;
                }
                proof {
                    let whole = memory@.update(idx_input as int, input_high);
                    assert(whole.take(whole.len() as int) =~= whole);
                }
                (Module::Conjuction(next), Some(!all))
            },
            Module::UnTyped => (Module::UnTyped, None),
        }
    }
}

impl ModuleNetwork {
    /// The modules and the pulses on their way.
    pub closed spec fn state(&self) -> NetState {
        NetState { modules: self.modules@.map_values(|m: Module| m@), queue: self.queue@ }
    }

    /// Where each module sends its pulses: for each target the module and
    /// the input.
    pub closed spec fn wiring(&self) -> Seq<Seq<(usize, usize)>> {
        self.outputs@.map_values(|t: Vec<(usize, usize)>| t@)
    }

    /// The module that the button sends to.
    pub closed spec fn input(&self) -> usize {
        self.input_idx
    }

    /// The names of the modules.
    pub closed spec fn names(&self) -> Seq<Seq<u8>> {
        self.names@.map_values(|n: Vec<u8>| n@)
    }

    /// Every pulse that is sent or on its way can arrive.
    pub open spec fn wf(&self) -> bool {
        &&& wiring_ok(self.state().modules, self.wiring())
        &&& queue_ok(self.state().modules, self.state().queue)
        &&& pulse_ok(self.state().modules, self.input() as int, 0)
        &&& self.names().len() == self.state().modules.len()
    }

    /// Lets the next pulse arrive, and returns it.
    pub fn step(&mut self) -> (p: Pulse)
        requires
            old(self).wf(),
            old(self).state().queue.len() > 0,
        ensures
            final(self).wf(),
            final(self).wiring() == old(self).wiring(),
            final(self).input() == old(self).input(),
            final(self).names() == old(self).names(),
            p == old(self).state().queue.last(),
            final(self).state() == after_step(old(self).wiring(), old(self).state()),
    {
        let ghost st = self.state();
        let ghost wiring = self.wiring();
        let pulse = self.queue.pop_back().unwrap();
        proof {
            assert(pulse == st.queue.last());
            assert(pulse_ok(st.modules, pulse.idx_rx_module as int, pulse.idx_rx_input as int));
            assert(st.modules[pulse.idx_rx_module as int] == self.modules@[pulse.idx_rx_module as int]@);
        }
        let (next, out) = self.modules[pulse.idx_rx_module].pulsed(pulse.idx_rx_input, pulse.high);
        self.modules.set(pulse.idx_rx_module, next);
        let ghost modules = self.state().modules;
        proof {
            assert(modules =~= st.modules.update(
                pulse.idx_rx_module as int,
                after_pulse(
                    st.modules[pulse.idx_rx_module as int],
                    pulse.idx_rx_input as int,
                    pulse.high,
                ).0,
            ));
            assert forall|m: int, i: int| pulse_ok(st.modules, m, i) implies pulse_ok(modules, m, i) by {
                lemma_pulse_keeps_shape(
                    st.modules,
                    pulse.idx_rx_module as int,
                    pulse.idx_rx_input as int,
                    pulse.high,
                    m,
                    i,
                );
            }
            assert(self.queue@ =~= st.queue.drop_last());
        }
        match out {
            None => {},
            Some(out_high) => {
                let ghost targets = wiring[pulse.idx_rx_module as int];
                let ghost rest = self.queue@;
                let n = self.outputs[pulse.idx_rx_module].len();
                let mut k: usize = 0;
                while k < n
                    invariant
                        k <= n,
                        pulse.idx_rx_module < self.outputs@.len(),
                        n == targets.len(),
                        targets == self.outputs@[pulse.idx_rx_module as int]@,
                        self.wiring() == wiring,
                        self.input() == old(self).input(),
                        self.names() == old(self).names(),
                        self.state().modules == modules,
                        wiring_ok(modules, wiring),
                        targets == wiring[pulse.idx_rx_module as int],
                        queue_ok(modules, self.queue@),
                        self.queue@ == with_sent(rest, targets, out_high, k as int),
                    decreases n - k,
                {
                    let (idx_target_module, idx_target_input) = self.outputs[pulse.idx_rx_module][k];
                    let tx_pulse = Pulse {
                        idx_rx_module: idx_target_module,
                        idx_rx_input: idx_target_input,
                        high: out_high,
                    };
                    let ghost before = self.queue@;
                    self.queue.push_front(tx_pulse);
                    proof {
                        assert(self.queue@ =~= seq![tx_pulse] + before);
                        assert(pulse_ok(
                            modules,
                            wiring[pulse.idx_rx_module as int][k as int].0 as int,
                            wiring[pulse.idx_rx_module as int][k as int].1 as int,
                        ));
                        assert forall|i: int| 0 <= i < self.queue@.len() implies pulse_ok(
                            modules,
                            (#[trigger] self.queue@[i]).idx_rx_module as int,
                            self.queue@[i].idx_rx_input as int,
                        ) by {
                            if i > 0 {
                                assert(self.queue@[i] == before[i - 1]);
                            }
                        }
                    }
                    k += 1;
                }
            },
        }
        pulse
    }

    /// Presses the button: a low pulse to the first input of the module that
    /// the button sends to is put on its way.
    pub fn press_button(&mut self)
        requires
            old(self).wf(),
        ensures
            final(self).wf(),
            final(self).wiring() == old(self).wiring(),
            final(self).input() == old(self).input(),
            final(self).names() == old(self).names(),
            final(self).state() == pressed(old(self).state(), old(self).input()),
    {
        let first_pulse = Pulse { idx_rx_module: self.input_idx, idx_rx_input: 0, high: false };
        let ghost before = self.queue@;
        self.queue.push_front(first_pulse);
        proof {
            assert(self.queue@ =~= seq![first_pulse] + before);
            assert forall|i: int| 0 <= i < self.queue@.len() implies pulse_ok(
                self.state().modules,
                (#[trigger] self.queue@[i]).idx_rx_module as int,
                self.queue@[i].idx_rx_input as int,
            ) by {
                if i > 0 {
                    assert(self.queue@[i] == before[i - 1]);
                }
            }
        }
    }

    /// Presses the button and lets the pulses arrive until none is on its
    /// way, but no more than `fuel` of them: the numbers of low and of high
    /// pulses that arrived, or `None` if more than `fuel` would arrive.
    #[verifier::loop_isolation(false)]
    pub fn count_pulses_after_press(&mut self, fuel: u32) -> (r: Option<(u32, u32)>)
        requires
            old(self).wf(),
        ensures
            final(self).wf(),
            final(self).wiring() == old(self).wiring(),
            final(self).input() == old(self).input(),
            final(self).names() == old(self).names(),
            match settled(
                old(self).wiring(),
                pressed(old(self).state(), old(self).input()),
                fuel as nat,
            ) {
                Some((end, low, high)) => r == Some((low as u32, high as u32)) && low + high <= fuel
                    && final(self).state() == end,
                None => r is None,
            },
    {
        self.press_button();
        let ghost wiring = self.wiring();
        let ghost start = self.state();
        let mut n_low: u32 = 0;
        let mut n_high: u32 = 0;
        let mut used: u32 = 0;
        while self.queue.len() > 0
            invariant
                self.wf(),
                self.wiring() == wiring,
                self.input() == old(self).input(),
                self.names() == old(self).names(),
                used == n_low + n_high,
                used <= fuel,
                settled(wiring, start, fuel as nat) == with_counts(
                    settled(wiring, self.state(), (fuel - used) as nat),
                    n_low as nat,
                    n_high as nat,
                ),
            decreases fuel - used,
        {
            if used >= fuel {
                return None;
            }
            let ghost before = self.state();
            let pulse = self.step();
            proof {
                assert(settled(wiring, before, (fuel - used) as nat) == match settled(
                    wiring,
                    after_step(wiring, before),
                    (fuel - used - 1) as nat,
                ) {
                    None => None,
                    Some((end, low, high)) => if before.queue.last().high {
                        Some((end, low, high + 1))
                    } else {
                        Some((end, low + 1, high))
                    },
                });
            }
            if pulse.high {
                n_high += 1;
            } else {
                n_low += 1;
            }
            used += 1;
        }
        Some((n_low, n_high))
    }

    /// Presses the button `n_presses` times, each time once no pulse is on
    /// its way, and counts the low and the high pulses that arrive. `None` if
    /// after one of the presses more than `fuel` pulses would arrive, or if
    /// one of the counts does not fit in 32 bits.
    #[verifier::loop_isolation(false)]
    pub fn press_multiple_and_count_pulses(&mut self, n_presses: usize, fuel: u32) -> (r: Option<
        (u32, u32),
    >)
        requires
            old(self).wf(),
        ensures
            final(self).wf(),
            final(self).wiring() == old(self).wiring(),
            final(self).input() == old(self).input(),
            final(self).names() == old(self).names(),
            match after_presses(
                old(self).wiring(),
                old(self).input(),
                old(self).state(),
                n_presses as nat,
                fuel as nat,
            ) {
                Some((end, low, high)) => if low <= u32::MAX && high <= u32::MAX {
                    r == Some((low as u32, high as u32)) && final(self).state() == end
                } else {
                    r is None
                },
                None => r is None,
            },
    {
        let ghost wiring = self.wiring();
        let ghost input = self.input();
        let ghost start = self.state();
        let mut n_low_total: u64 = 0;
        let mut n_high_total: u64 = 0;
        let mut i: usize = 0;
        while i < n_presses
            invariant
                i <= n_presses,
                self.wf(),
                self.wiring() == wiring,
                self.input() == input,
                self.names() == old(self).names(),
                n_low_total <= u32::MAX,
                n_high_total <= u32::MAX,
                after_presses(wiring, input, start, n_presses as nat, fuel as nat) == with_counts(
                    after_presses(wiring, input, self.state(), (n_presses - i) as nat, fuel as nat),
                    n_low_total as nat,
                    n_high_total as nat,
                ),
            decreases n_presses - i,
        {
            let ghost before = self.state();
            let counted = self.count_pulses_after_press(fuel);
            proof {
                let rest = (n_presses - i) as nat;
                assert(after_presses(wiring, input, before, rest, fuel as nat) == match settled(
                    wiring,
                    pressed(before, input),
                    fuel as nat,
                ) {
                    None => None,
                    Some((mid, low, high)) => match after_presses(
                        wiring,
                        input,
                        mid,
                        (rest - 1) as nat,
                        fuel as nat,
                    ) {
                        None => None,
                        Some((end, more_low, more_high)) => Some(
                            (end, low + more_low, high + more_high),
                        ),
                    },
                });
            }
            match counted {
                None => {
                    return None;
                },
                Some((n_low, n_high)) => {
                    n_low_total = n_low_total + n_low as u64;
                    n_high_total = n_high_total + n_high as u64;
                    if n_low_total > 0xffff_ffff || n_high_total > 0xffff_ffff {
                        return None;
                    }
                },
            }
            i += 1;
        }
        Some((n_low_total as u32, n_high_total as u32))
    }

    /// How often the button has been pressed when the module `target` first
    /// gets a low pulse; `None` if that takes more than `fuel` arrivals and
    /// presses.
    #[verifier::loop_isolation(false)]
    pub fn press_until_first_low_received(&mut self, target: usize, fuel: u64) -> (r: Option<u64>)
        requires
            old(self).wf(),
        ensures
            final(self).wf(),
            final(self).wiring() == old(self).wiring(),
            final(self).input() == old(self).input(),
            final(self).names() == old(self).names(),
            all_cleared(final(self).state().modules) == all_cleared(old(self).state().modules),
            match first_low(
                old(self).wiring(),
                old(self).input(),
                old(self).state(),
                target,
                0,
                fuel as nat,
            ) {
                Some(n) => n <= fuel && r == Some(n as u64),
                None => r is None,
            },
    {
        let ghost wiring = self.wiring();
        let ghost input = self.input();
        let ghost start = self.state();
        let mut n_presses: u64 = 0;
        let mut used: u64 = 0;
        while used < fuel
            invariant
                self.wf(),
                self.wiring() == wiring,
                self.input() == input,
                self.names() == old(self).names(),
                n_presses <= used <= fuel,
                all_cleared(self.state().modules) == all_cleared(start.modules),
                first_low(wiring, input, start, target, 0, fuel as nat) == first_low(
                    wiring,
                    input,
                    self.state(),
                    target,
                    n_presses as nat,
                    (fuel - used) as nat,
                ),
            decreases fuel - used,
        {
            if self.queue.len() == 0 {
                self.press_button();
                n_presses += 1;
            } else {
                proof {
                    lemma_cleared_after_step(wiring, self.state());
                }
                let pulse = self.step();
                if pulse.idx_rx_module == target && !pulse.high {
                    return Some(n_presses);
                }
            }
            used += 1;
        }
        None
    }

    /// Makes every module forget what it remembers, and takes the pulses on
    /// their way away.
    pub fn reset(&mut self)
        requires
            old(self).wf(),
        ensures
            final(self).wf(),
            final(self).wiring() == old(self).wiring(),
            final(self).input() == old(self).input(),
            final(self).names() == old(self).names(),
            final(self).state() == (NetState {
                modules: all_cleared(old(self).state().modules),
                queue: Seq::<Pulse>::empty(),
            }),
    {
        let ghost before = self.state().modules;
        let n = self.modules.len();
        let mut i: usize = 0;
        while i < n
            invariant
                i <= n,
                n == self.modules@.len(),
                n == before.len(),
                self.wiring() == old(self).wiring(),
                self.input() == old(self).input(),
                self.names() == old(self).names(),
                self.queue@ == old(self).queue@,
                forall|j: int| 0 <= j < i ==> (#[trigger] self.modules@[j])@ == cleared(before[j]),
                forall|j: int| i <= j < n ==> (#[trigger] self.modules@[j])@ == before[j],
            decreases n - i,
        {
            let fresh = match &self.modules[i] {
                Module::BroadCast => Module::BroadCast,
                Module::FlipFlop(_) => Module::FlipFlop(false),
                Module::Conjuction(memory) => {
                    let mut blank: Vec<bool> = Vec::new();
                    let mut k: usize = 0;
                    while k < memory.len()
                        invariant
                            k <= memory.len(),
                            blank@ == Seq::new(k as nat, |i: int| false),
                        decreases memory.len() - k,
                    {
                        blank.push(false);
                        proof {
                            assert(blank@ =~= Seq::new((k + 1) as nat, |i: int| false));
                        }
                        k += 1;
                    }
                    Module::Conjuction(blank)
                },
                Module::UnTyped => Module::UnTyped,
            };
            self.modules.set(i, fresh);
            i += 1;
        }
        self.queue.clear();
        proof {
            let modules = self.state().modules;
            assert(modules =~= all_cleared(before));
            assert(self.queue@ =~= Seq::<Pulse>::empty());
            assert forall|m: int, k: int| pulse_ok(before, m, k) implies pulse_ok(modules, m, k) by {}
        }
    }

    /// The place of the module with the given name.
    pub fn index_of(&self, name: &[u8]) -> (r: Option<usize>)
        ensures
            match r {
                Some(i) => i < self.names().len() && self.names()[i as int] == name@,
                None => forall|j: int| 0 <= j < self.names().len() ==> self.names()[j] != name@,
            },
    {
        find_name(&self.names, name)
    }

    /// How often the button must be pressed until each of the modules `ks`,
    /// `kb`, `sx` and `jt` has for the first time got a low pulse, which is the
    /// least common multiple of the numbers of presses that each of them takes
    /// on its own: for the first from the network as it is, for the others from
    /// the network with nothing remembered. `None` where one of the four is not
    /// there, takes more than `fuel` arrivals and presses, or the result does
    /// not fit in 64 bits.
    pub fn steps_until_rx_first_low(&mut self, fuel: u64) -> (r: Option<u64>)
        requires
            old(self).wf(),
        ensures
            final(self).wf(),
            final(self).wiring() == old(self).wiring(),
            r is Some ==> exists|ks: usize, kb: usize, sx: usize, jt: usize|
                #![trigger old(self).watched(ks, kb, sx, jt)]
                old(self).watched(ks, kb, sx, jt) && old(self).common_steps(
                    ks,
                    kb,
                    sx,
                    jt,
                    fuel as nat,
                    r->Some_0 as int,
                ),
            r is None ==> (forall|ks: usize, kb: usize, sx: usize, jt: usize|
                !#[trigger] old(self).watched(ks, kb, sx, jt)) || (exists|
                ks: usize,
                kb: usize,
                sx: usize,
                jt: usize,
            |
                #![trigger old(self).watched(ks, kb, sx, jt)]
                old(self).watched(ks, kb, sx, jt) && old(self).common_fails(
                    ks,
                    kb,
                    sx,
                    jt,
                    fuel as nat,
                )),
    {
        let name_ks: [u8; 2] = [107, 115];
        let name_kb: [u8; 2] = [107, 98];
        let name_sx: [u8; 2] = [115, 120];
        let name_jt: [u8; 2] = [106, 116];
        proof {
            assert(name_ks@ =~= seq![107u8, 115u8]);
            assert(name_kb@ =~= seq![107u8, 98u8]);
            assert(name_sx@ =~= seq![115u8, 120u8]);
            assert(name_jt@ =~= seq![106u8, 116u8]);
        }
        let ks = self.index_of(array_as_slice(&name_ks))?;
        let kb = self.index_of(array_as_slice(&name_kb))?;
        let sx = self.index_of(array_as_slice(&name_sx))?;
        let jt = self.index_of(array_as_slice(&name_jt))?;
        let ghost blank = NetState {
            modules: all_cleared(self.state().modules),
            queue: Seq::<Pulse>::empty(),
        };
        proof {
            lemma_cleared_twice(self.state().modules);
        }
        let ghost wiring = self.wiring();
        let ghost input = self.input();
        let ghost start = self.state();
        proof {
            assert(old(self).watched(ks, kb, sx, jt));
        }
        let steps_ks = match self.press_until_first_low_received(ks, fuel) {
            Some(n) => n,
            None => {
                proof {
                    assert(old(self).common_fails(ks, kb, sx, jt, fuel as nat));
                }
                return None;
            },
        };
        assert(first_low(wiring, input, start, ks, 0, fuel as nat) == Some(steps_ks as nat));
        self.reset();
        assert(self.state() == blank);
        let steps_kb = match self.press_until_first_low_received(kb, fuel) {
            Some(n) => n,
            None => {
                proof {
                    assert(old(self).common_fails(ks, kb, sx, jt, fuel as nat));
                }
                return None;
            },
        };
        assert(first_low(wiring, input, blank, kb, 0, fuel as nat) == Some(steps_kb as nat));
        self.reset();
        assert(self.state() == blank);
        let steps_sx = match self.press_until_first_low_received(sx, fuel) {
            Some(n) => n,
            None => {
                proof {
                    assert(old(self).common_fails(ks, kb, sx, jt, fuel as nat));
                }
                return None;
            },
        };
        assert(first_low(wiring, input, blank, sx, 0, fuel as nat) == Some(steps_sx as nat));
        self.reset();
        assert(self.state() == blank);
        let steps_jt = match self.press_until_first_low_received(jt, fuel) {
            Some(n) => n,
            None => {
                proof {
                    assert(old(self).common_fails(ks, kb, sx, jt, fuel as nat));
                }
                return None;
            },
        };
        assert(first_low(wiring, input, blank, jt, 0, fuel as nat) == Some(steps_jt as nat));
        self.reset();
        let first = match Self::checked_lcm(steps_ks, steps_kb) {
            Some(l) => l,
            None => {
                proof {
                    assert(old(self).common_fails(ks, kb, sx, jt, fuel as nat));
                }
                return None;
            },
        };
        let second = match Self::checked_lcm(first, steps_sx) {
            Some(l) => l,
            None => {
                proof {
                    assert(lcm_breaks(
                        steps_ks as int,
                        steps_kb as int,
                        steps_sx as int,
                        steps_jt as int,
                    )) by {
                        assert(is_lcm(steps_ks as int, steps_kb as int, first as int));
                        assert(breaks_late(
                            steps_ks as int,
                            steps_kb as int,
                            steps_sx as int,
                            steps_jt as int,
                            first as int,
                            0,
                        ));
                    }
                    assert(old(self).common_fails(ks, kb, sx, jt, fuel as nat));
                }
                return None;
            },
        };
        let third = match Self::checked_lcm(second, steps_jt) {
            Some(l) => l,
            None => {
                proof {
                    assert(lcm_breaks(
                        steps_ks as int,
                        steps_kb as int,
                        steps_sx as int,
                        steps_jt as int,
                    )) by {
                        assert(is_lcm(steps_ks as int, steps_kb as int, first as int));
                        assert(is_lcm(first as int, steps_sx as int, second as int));
                        assert(breaks_late(
                            steps_ks as int,
                            steps_kb as int,
                            steps_sx as int,
                            steps_jt as int,
                            first as int,
                            second as int,
                        ));
                    }
                    assert(old(self).common_fails(ks, kb, sx, jt, fuel as nat));
                }
                return None;
            },
        };
        proof {
            assert(is_lcm(first as int, steps_sx as int, second as int));
            assert(is_lcm_of_four(
                steps_ks as int,
                steps_kb as int,
                steps_sx as int,
                steps_jt as int,
                third as int,
            ));
            assert(old(self).watched(ks, kb, sx, jt));
            assert(old(self).common_steps(ks, kb, sx, jt, fuel as nat, third as int));
        }
        Some(third)
    }

    /// Whether the four are the places of the modules `ks`, `kb`, `sx` and
    /// `jt`.
    pub open spec fn watched(&self, ks: usize, kb: usize, sx: usize, jt: usize) -> bool {
        &&& ks < self.names().len() && self.names()[ks as int] == seq![107u8, 115u8]
        &&& kb < self.names().len() && self.names()[kb as int] == seq![107u8, 98u8]
        &&& sx < self.names().len() && self.names()[sx as int] == seq![115u8, 120u8]
        &&& jt < self.names().len() && self.names()[jt as int] == seq![106u8, 116u8]
    }

    /// Whether the least common multiple of the numbers of presses that the
    /// four modules take is not found: one of them gets no low pulse in time, or
    /// a product on the way to the multiple does not fit in 64 bits.
    pub open spec fn common_fails(&self, ks: usize, kb: usize, sx: usize, jt: usize, fuel: nat) -> bool {
        let blank = NetState {
            modules: all_cleared(self.state().modules),
            queue: Seq::<Pulse>::empty(),
        };
        match (
            first_low(self.wiring(), self.input(), self.state(), ks, 0, fuel),
            first_low(self.wiring(), self.input(), blank, kb, 0, fuel),
            first_low(self.wiring(), self.input(), blank, sx, 0, fuel),
            first_low(self.wiring(), self.input(), blank, jt, 0, fuel),
        ) {
            (Some(a), Some(b), Some(c), Some(d)) => lcm_breaks(a as int, b as int, c as int, d as int),
            _ => true,
        }
    }

    /// Whether `v` is the least common multiple of the numbers of presses
    /// that the four modules take.
    pub open spec fn common_steps(
        &self,
        ks: usize,
        kb: usize,
        sx: usize,
        jt: usize,
        fuel: nat,
        v: int,
    ) -> bool {
        let blank = NetState {
            modules: all_cleared(self.state().modules),
            queue: Seq::<Pulse>::empty(),
        };
        match (
            first_low(self.wiring(), self.input(), self.state(), ks, 0, fuel),
            first_low(self.wiring(), self.input(), blank, kb, 0, fuel),
            first_low(self.wiring(), self.input(), blank, sx, 0, fuel),
            first_low(self.wiring(), self.input(), blank, jt, 0, fuel),
        ) {
            (Some(a), Some(b), Some(c), Some(d)) => is_lcm_of_four(
                a as int,
                b as int,
                c as int,
                d as int,
                v,
            ),
            _ => false,
        }
    }

    /// The least common multiple of two numbers whose product fits in 64
    /// bits.
    fn checked_lcm(a: u64, b: u64) -> (r: Option<u64>)
        ensures
            r is Some <==> a * b <= u64::MAX,
            r is Some ==> is_lcm(a as int, b as int, r->Some_0 as int),
    {
        match a.checked_mul(b) {
            Some(_) => Some(lcm(a, b)),
            None => None,
        }
    }

    /// Whether module `m` is what a line says: it has the name and the kind,
    /// and sends to the modules with the given names, in that order.
    pub open spec fn describes(&self, m: int, said: (u8, Seq<u8>, Seq<Seq<u8>>)) -> bool {
        &&& 0 <= m < self.names().len()
        &&& self.names()[m] == said.1
        &&& kind_byte(self.state().modules[m]) == said.0
        &&& self.wiring()[m].len() == said.2.len()
        &&& forall|k: int|
            0 <= k < said.2.len() ==> (#[trigger] self.wiring()[m][k]).0 < self.names().len()
                && self.names()[self.wiring()[m][k].0 as int] == said.2[k]
    }

    /// The network is what a text says: no pulse is on its way, no module
    /// remembers anything, no two modules have one name, the button sends to the
    /// module named `broadcaster`, and for every line a module is what it says.
    pub open spec fn says(&self, text: Seq<u8>) -> bool {
        &&& self.wf()
        &&& self.state().queue.len() == 0
        &&& self.names().no_duplicates()
        &&& self.names()[self.input() as int] == broadcaster()
        &&& all_cleared(self.state().modules) == self.state().modules
        &&& forall|i: int|
            0 <= i < lines(text).len() ==> self.is_described(
                (#[trigger] line_of(lines(text)[i]))->Some_0,
            )
    }

    /// Whether some module is what a line says.
    pub open spec fn is_described(&self, said: (u8, Seq<u8>, Seq<Seq<u8>>)) -> bool {
        exists|m: int| #[trigger] self.describes(m, said)
    }

    /// The place of the module named `broadcaster` in the tables that were
    /// read from a text, if it is there and can take the pulse of the button.
    fn button(
        names: &Vec<Vec<u8>>,
        kinds: &Vec<u8>,
        n_inputs: &Vec<usize>,
        outputs: &Vec<Vec<(usize, usize)>>,
        Ghost(t): Ghost<Seq<u8>>,
    ) -> (r: Option<usize>)
        requires
            kinds@.len() == names@.len(),
            n_inputs@.len() == names@.len(),
            outputs@.len() == names@.len(),
            texts(names@).no_duplicates(),
            forall|j: int| 0 <= j < lines(t).len() ==> (#[trigger] line_of(lines(t)[j])) is Some,
            forall|j: int|
                0 <= j < lines(t).len() ==> tables_say(
                    names@,
                    kinds@,
                    outputs@,
                    (#[trigger] line_of(lines(t)[j]))->Some_0,
                ),
            forall|m: int, k: int|
                0 <= m < outputs@.len() && 0 <= k < outputs@[m]@.len() ==> (#[trigger] outputs@[m]@[k]).0
                    < names@.len() && outputs@[m]@[k].1 < n_inputs@[outputs@[m]@[k].0 as int],
            forall|m: int|
                0 <= m < names@.len() && kinds@[m] != 0 ==> is_head(
                    lines(t),
                    lines(t).len() as int,
                    (#[trigger] names@[m])@,
                    kinds@[m],
                ),
            forall|m: int|
                0 <= m < names@.len() ==> is_named_head(
                    lines(t),
                    lines(t).len() as int,
                    (#[trigger] names@[m])@,
                ) || is_target(lines(t), lines(t).len() as int, 0, names@[m]@),
            forall|z: int|
                0 <= z < names@.len() && n_inputs@[z] > 0 ==> is_target(
                    lines(t),
                    lines(t).len() as int,
                    0,
                    (#[trigger] names@[z])@,
                ),
        ensures
            r is Some <==> (is_named_head(lines(t), lines(t).len() as int, broadcaster()) || is_target(
                lines(t),
                lines(t).len() as int,
                0,
                broadcaster(),
            )) && !(is_head(lines(t), lines(t).len() as int, broadcaster(), 38) && !is_target(
                lines(t),
                lines(t).len() as int,
                0,
                broadcaster(),
            )),
            r is Some ==> r->Some_0 < names@.len() && names@[r->Some_0 as int]@ == broadcaster() && !(
            kinds@[r->Some_0 as int] == 38 && n_inputs@[r->Some_0 as int] == 0),
    {
        let ghost ls = lines(t);
        let ghost n = ls.len() as int;
        let main_name: [u8; 11] = [98, 114, 111, 97, 100, 99, 97, 115, 116, 101, 114];
        proof {
            assert(main_name@ =~= broadcaster());
            lemma_tables(ls, n, names@, kinds@, n_inputs@, outputs@);
        }
        let input_idx = match find_name(names, array_as_slice(&main_name)) {
            Some(m) => m,
            None => {
                proof {
                    lemma_readable(ls, n, names@, kinds@, n_inputs@, None);
                }
                return None;
            },
        };
        proof {
            lemma_readable(ls, n, names@, kinds@, n_inputs@, Some(input_idx as int));
        }
        if kinds[input_idx] == 38 && n_inputs[input_idx] == 0 {
            return None;
        }
        Some(input_idx)
    }

    /// Reads a network: on each line a module, ` -> `, and the names of the
    /// modules that it sends to, parted by `, `. The module is `broadcaster`, or
    /// a name after `%` for a flip-flop or after `&` for a conjunction. No module
    /// may be described twice, and a module named `broadcaster` must be there
    /// and able to take the pulse of the button.
    #[verifier::loop_isolation(false)]
    #[verifier::rlimit(50)]
    pub fn from_bytes(text: &[u8]) -> (r: Result<ModuleNetwork, InputError>)
        ensures
            (exists|i: int| 0 <= i < lines(text@).len() && (#[trigger] line_of(lines(text@)[i])) is None)
                ==> r is Err,
            r is Ok <==> is_readable(text@),
            r is Ok ==> {
                let net = r->Ok_0;
                &&& net.wf()
                &&& net.state().queue.len() == 0
                &&& net.names().no_duplicates()
                &&& net.names()[net.input() as int] == broadcaster()
                &&& all_cleared(net.state().modules) == net.state().modules
                &&& forall|i: int|
                    0 <= i < lines(text@).len() ==> net.is_described(
                        (#[trigger] line_of(lines(text@)[i]))->Some_0,
                    )
            },
    {
        let spans = split_lines(text);
        let ghost ls = lines(text@);
        let arrow: [u8; 4] = [32, 45, 62, 32];
        let comma: [u8; 2] = [44, 32];
        let main_name: [u8; 11] = [98, 114, 111, 97, 100, 99, 97, 115, 116, 101, 114];
        proof {
            assert(arrow@ =~= seq![32u8, 45u8, 62u8, 32u8]);
            assert(comma@ =~= seq![44u8, 32u8]);
            assert(main_name@ =~= broadcaster());
        }
        let mut names: Vec<Vec<u8>> = Vec::new();
        let mut kinds: Vec<u8> = Vec::new();
        let mut n_inputs: Vec<usize> = Vec::new();
        let mut outputs: Vec<Vec<(usize, usize)>> = Vec::new();
        let mut sent: usize = 0;
        let mut i: usize = 0;
        proof {
            assert(spans@.len() == ls.len());
        }
        while i < spans.len()
            invariant
                i <= spans.len(),
                forall|m: int|
                    0 <= m < names@.len() && kinds@[m] != 0 ==> is_head(
                        ls,
                        i as int,
                        (#[trigger] names@[m])@,
                        kinds@[m],
                    ),
                heads_differ(ls, i as int),
                sent == sends(ls, i as int),
                forall|t: int| 0 <= t < n_inputs@.len() ==> (#[trigger] n_inputs@[t]) <= sent,
                forall|m: int|
                    0 <= m < names@.len() ==> is_named_head(ls, i as int, (#[trigger] names@[m])@)
                        || is_target(ls, i as int, 0, names@[m]@),
                forall|t: int|
                    0 <= t < names@.len() && n_inputs@[t] > 0 ==> is_target(
                        ls,
                        i as int,
                        0,
                        (#[trigger] names@[t])@,
                    ),
                texts(names@).no_duplicates(),
                kinds@.len() == names@.len(),
                n_inputs@.len() == names@.len(),
                outputs@.len() == names@.len(),
                forall|m: int|
                    0 <= m < kinds@.len() ==> (#[trigger] kinds@[m]) == 0 || kinds@[m] == 98
                        || kinds@[m] == 37 || kinds@[m] == 38,
                forall|m: int, k: int|
                    0 <= m < outputs@.len() && 0 <= k < outputs@[m]@.len() ==> (
                    #[trigger] outputs@[m]@[k]).0 < names@.len() && outputs@[m]@[k].1
                        < n_inputs@[outputs@[m]@[k].0 as int],
                forall|j: int| 0 <= j < i ==> (#[trigger] line_of(ls[j])) is Some,
                forall|j: int|
                    0 <= j < i ==> tables_say(
                        names@,
                        kinds@,
                        outputs@,
                        (#[trigger] line_of(ls[j]))->Some_0,
                    ),
            decreases spans.len() - i,
        {
            let (from, to) = spans[i];
            let ghost line = ls[i as int];
            proof {
                assert(text@.subrange(from as int, to as int) == line);
            }
            let middle = match split_once(text, from, to, array_as_slice(&arrow)) {
                Some(m) => m,
                None => {
                    proof {
                        assert(line_of(ls[i as int]) is None);
                    }
                    return Err(InputError::Syntax);
                },
            };
            let ghost head = text@.subrange(from as int, middle as int);
            let ghost tail = text@.subrange(middle + 4, to as int);
            let (kind, name_from): (u8, usize) = if same_as(
                text,
                from,
                middle,
                array_as_slice(&main_name),
            ) {
                (98, from)
            } else if middle > from && text[from] == 37 {
                (37, from + 1)
            } else if middle > from && text[from] == 38 {
                (38, from + 1)
            } else {
                proof {
                    if head.len() > 0 {
                        assert(head[0] == text@[from as int]);
                    }
                    assert(line_of(ls[i as int]) is None);
                }
                return Err(InputError::Syntax);
            };
            let ghost said = line_of(line)->Some_0;
            proof {
                if head.len() > 0 {
                    assert(head[0] == text@[from as int]);
                }
                assert(line_of(line) is Some);
                assert(said.0 == kind);
                assert(said.1 =~= text@.subrange(name_from as int, middle as int));
                assert(said.2 == parts(tail, comma@));
            }
            let ghost names_before = names@;
            let ghost kinds_before = kinds@;
            let ghost outputs_before = outputs@;
            let ghost inputs_before = n_inputs@;
            let idx = place_of(&mut names, text, name_from, middle);
            if kinds.len() < names.len() {
                kinds.push(0);
                n_inputs.push(0);
                outputs.push(Vec::new());
            }
            proof {
                assert(told(ls, i as int) == said);
            }
            if kinds[idx] != 0 {
                proof {
                    assert(idx < names_before.len());
                    assert(names@[idx as int] == names_before[idx as int]);
                    assert(is_head(ls, i as int, names_before[idx as int]@, kinds_before[idx as int]));
                    let j = choose|j: int|
                        0 <= j < i && (#[trigger] told(ls, j)).1 == names_before[idx as int]@;
                    assert(told(ls, j).1 == told(ls, i as int).1);
                    assert(!heads_differ(ls, ls.len() as int));
                }
                return Err(InputError::Value);
            }
            let outs = split_at_each(text, middle + 4, to, array_as_slice(&comma));
            proof {
                assert(outs@.len() == said.2.len());
                lemma_head_placed(
                    ls,
                    i as int,
                    names_before,
                    names@,
                    kinds_before,
                    kinds@,
                    inputs_before,
                    n_inputs@,
                    idx as int,
                );
            }
            let mut targets: Vec<(usize, usize)> = Vec::new();
            let mut k: usize = 0;
            while k < outs.len()
                invariant
                    k <= outs.len(),
                    texts(names@).no_duplicates(),
                    kinds@.len() == names@.len(),
                    n_inputs@.len() == names@.len(),
                    outputs@.len() == names@.len(),
                    idx < names@.len(),
                    names@[idx as int]@ == said.1,
                    kinds@[idx as int] == 0,
                    targets@.len() == k,
                    outs@.len() == said.2.len(),
                    told(ls, i as int) == said,
                    sent == sends(ls, i as int) + k,
                    forall|t: int| 0 <= t < n_inputs@.len() ==> (#[trigger] n_inputs@[t]) <= sent,
                    forall|m: int|
                        0 <= m < names@.len() && kinds@[m] != 0 ==> is_head(
                            ls,
                            i as int,
                            (#[trigger] names@[m])@,
                            kinds@[m],
                        ),
                    forall|m: int|
                        0 <= m < names@.len() ==> is_named_head(ls, i + 1, (#[trigger] names@[m])@)
                            || is_target(ls, i as int, k as int, names@[m]@),
                    forall|t: int|
                        0 <= t < names@.len() && n_inputs@[t] > 0 ==> is_target(
                            ls,
                            i as int,
                            k as int,
                            (#[trigger] names@[t])@,
                        ),
                    names_before.len() <= names@.len(),
                    forall|m: int|
                        0 <= m < names_before.len() ==> (#[trigger] names@[m]) == names_before[m],
                    forall|m: int|
                        0 <= m < kinds_before.len() ==> (#[trigger] kinds@[m]) == kinds_before[m],
                    forall|m: int| kinds_before.len() <= m < kinds@.len() ==> (#[trigger] kinds@[m]) == 0,
                    forall|m: int|
                        0 <= m < outputs_before.len() ==> (#[trigger] outputs@[m]) == outputs_before[m],
                    forall|m: int|
                        outputs_before.len() <= m < outputs@.len() ==> (#[trigger] outputs@[m])@.len()
                            == 0,
                    forall|m: int, q: int|
                        0 <= m < outputs@.len() && 0 <= q < outputs@[m]@.len() ==> (
                        #[trigger] outputs@[m]@[q]).0 < names@.len() && outputs@[m]@[q].1
                            < n_inputs@[outputs@[m]@[q].0 as int],
                    forall|q: int|
                        0 <= q < k ==> (#[trigger] targets@[q]).0 < names@.len() && targets@[q].1
                            < n_inputs@[targets@[q].0 as int] && names@[targets@[q].0 as int]@
                            == said.2[q],
                decreases outs.len() - k,
            {
                let (a, b) = outs[k];
                let ghost names_mid = names@;
                let ghost kinds_mid = kinds@;
                let ghost inputs_mid = n_inputs@;
                let t = place_of(&mut names, text, a, b);
                if kinds.len() < names.len() {
                    kinds.push(0);
                    n_inputs.push(0);
                    outputs.push(Vec::new());
                }
                // The input is the one that this module got when it first sent
                // to the target.
                let mut pos: usize = n_inputs[t];
                let mut q: usize = 0;
                while q < targets.len()
                    invariant
                        q <= targets.len(),
                        t < n_inputs@.len(),
                        pos <= n_inputs@[t as int],
                        pos < n_inputs@[t as int] || forall|z: int|
                            0 <= z < q ==> (#[trigger] targets@[z]).0 != t,
                        forall|z: int|
                            0 <= z < targets@.len() ==> (#[trigger] targets@[z]).0 < n_inputs@.len()
                                && targets@[z].1 < n_inputs@[targets@[z].0 as int],
                    decreases targets.len() - q,
                {
                    if targets[q].0 == t && pos == n_inputs[t] {
                        pos = targets[q].1;
                    }
                    q += 1;
                }
                if sent == usize::MAX {
                    proof {
                        assert(sends(ls, i + 1) == sends(ls, i as int) + said.2.len());
                        lemma_sends(ls, i + 1, ls.len() as int);
                    }
                    return Err(InputError::Value);
                }
                sent = sent + 1;
                let more = n_inputs[t] + 1;
                n_inputs.set(t, more);
                targets.push((t, pos));
                proof {
                    assert(text@.subrange(a as int, b as int) == said.2[k as int]);
                    assert(names@[t as int]@ == out_of(ls, i as int, k as int));
                    lemma_target_placed(
                        ls,
                        i as int,
                        k as int,
                        names_mid,
                        names@,
                        kinds_mid,
                        kinds@,
                        inputs_mid,
                        n_inputs@,
                        t as int,
                    );
                }
                k += 1;
            }
            let ghost kinds_late = kinds@;
            kinds.set(idx, kind);
            outputs.set(idx, targets);
            proof {
                lemma_line_read(
                    ls,
                    i as int,
                    names_before,
                    kinds_before,
                    outputs_before,
                    names@,
                    kinds_late,
                    kinds@,
                    outputs@,
                    n_inputs@,
                    idx as int,
                );
            }
            i += 1;
        }
        Self::conclude(names, kinds, n_inputs, outputs, Ghost(text@))
    }

    /// Makes the network of the tables that were read from a text, if a
    /// module named `broadcaster` is there to take the pulse of the button.
    fn conclude(
        names: Vec<Vec<u8>>,
        kinds: Vec<u8>,
        n_inputs: Vec<usize>,
        outputs: Vec<Vec<(usize, usize)>>,
        Ghost(t): Ghost<Seq<u8>>,
    ) -> (r: Result<ModuleNetwork, InputError>)
        requires
            kinds@.len() == names@.len(),
            n_inputs@.len() == names@.len(),
            outputs@.len() == names@.len(),
            texts(names@).no_duplicates(),
            forall|j: int| 0 <= j < lines(t).len() ==> (#[trigger] line_of(lines(t)[j])) is Some,
            forall|j: int|
                0 <= j < lines(t).len() ==> tables_say(
                    names@,
                    kinds@,
                    outputs@,
                    (#[trigger] line_of(lines(t)[j]))->Some_0,
                ),
            forall|m: int, k: int|
                0 <= m < outputs@.len() && 0 <= k < outputs@[m]@.len() ==> (#[trigger] outputs@[m]@[k]).0
                    < names@.len() && outputs@[m]@[k].1 < n_inputs@[outputs@[m]@[k].0 as int],
            forall|m: int|
                0 <= m < names@.len() && kinds@[m] != 0 ==> is_head(
                    lines(t),
                    lines(t).len() as int,
                    (#[trigger] names@[m])@,
                    kinds@[m],
                ),
            forall|m: int|
                0 <= m < names@.len() ==> is_named_head(
                    lines(t),
                    lines(t).len() as int,
                    (#[trigger] names@[m])@,
                ) || is_target(lines(t), lines(t).len() as int, 0, names@[m]@),
            forall|z: int|
                0 <= z < names@.len() && n_inputs@[z] > 0 ==> is_target(
                    lines(t),
                    lines(t).len() as int,
                    0,
                    (#[trigger] names@[z])@,
                ),
            heads_differ(lines(t), lines(t).len() as int),
            sends(lines(t), lines(t).len() as int) <= usize::MAX,
        ensures
            r is Ok <==> is_readable(t),
            r is Ok ==> r->Ok_0.says(t),
    {
        let input_idx = match Self::button(&names, &kinds, &n_inputs, &outputs, Ghost(t)) {
            Some(m) => m,
            None => {
                return Err(InputError::Value);
            },
        };
        proof {
            let ls = lines(t);
            assert forall|m: int| 0 <= m < kinds@.len() implies (#[trigger] kinds@[m]) == 0 || kinds@[m]
                == 98 || kinds@[m] == 37 || kinds@[m] == 38 by {
                if kinds@[m] != 0 {
                    assert(is_head(ls, ls.len() as int, names@[m]@, kinds@[m]));
                    let j = choose|j: int|
                        0 <= j < ls.len() && (#[trigger] told(ls, j)).1 == names@[m]@ && told(ls, j).0
                            == kinds@[m];
                    assert(line_of(ls[j]) is Some);
                }
            }
        }
        let net = Self::assemble(names, kinds, n_inputs, outputs, input_idx, Ghost(t));
        Ok(net)
    }

    /// Makes the network of the tables that were read from a text.
    #[verifier::loop_isolation(false)]
    fn assemble(
        names: Vec<Vec<u8>>,
        kinds: Vec<u8>,
        n_inputs: Vec<usize>,
        outputs: Vec<Vec<(usize, usize)>>,
        input_idx: usize,
        Ghost(t): Ghost<Seq<u8>>,
    ) -> (net: ModuleNetwork)
        requires
            kinds@.len() == names@.len(),
            n_inputs@.len() == names@.len(),
            outputs@.len() == names@.len(),
            texts(names@).no_duplicates(),
            input_idx < names@.len(),
            names@[input_idx as int]@ == broadcaster(),
            !(kinds@[input_idx as int] == 38 && n_inputs@[input_idx as int] == 0),
            forall|m: int|
                0 <= m < kinds@.len() ==> (#[trigger] kinds@[m]) == 0 || kinds@[m] == 98 || kinds@[m]
                    == 37 || kinds@[m] == 38,
            forall|j: int| 0 <= j < lines(t).len() ==> (#[trigger] line_of(lines(t)[j])) is Some,
            forall|j: int|
                0 <= j < lines(t).len() ==> tables_say(
                    names@,
                    kinds@,
                    outputs@,
                    (#[trigger] line_of(lines(t)[j]))->Some_0,
                ),
            forall|m: int, k: int|
                0 <= m < outputs@.len() && 0 <= k < outputs@[m]@.len() ==> (#[trigger] outputs@[m]@[k]).0
                    < names@.len() && outputs@[m]@[k].1 < n_inputs@[outputs@[m]@[k].0 as int],
        ensures
            net.says(t),
    {
        let ghost ls = lines(t);
        let mut modules: Vec<Module> = Vec::new();
        let mut m: usize = 0;
        while m < names.len()
            invariant
                m <= names.len(),
                modules@.len() == m,
                forall|j: int|
                    0 <= j < m ==> kind_byte((#[trigger] modules@[j])@) == kinds@[j] && cleared(
                        modules@[j]@,
                    ) == modules@[j]@ && (modules@[j]@ is Conjuction
                        ==> modules@[j]@->Conjuction_0.len() == n_inputs@[j]),
            decreases names.len() - m,
        {
            let module = if kinds[m] == 98 {
                Module::BroadCast
            } else if kinds[m] == 37 {
                Module::FlipFlop(false)
            } else if kinds[m] == 38 {
                let mut memory: Vec<bool> = Vec::new();
                let mut z: usize = 0;
                while z < n_inputs[m]
                    invariant
                        z <= n_inputs@[m as int],
                        memory@ == Seq::new(z as nat, |i: int| false),
                    decreases n_inputs@[m as int] - z,
                {
                    memory.push(false);
                    proof {
                        assert(memory@ =~= Seq::new((z + 1) as nat, |i: int| false));
                    }
                    z += 1;
                }
                proof {
                    assert(Seq::new(memory@.len(), |i: int| false) =~= memory@);
                }
                Module::Conjuction(memory)
            } else {
                Module::UnTyped
            };
            modules.push(module);
            m += 1;
        }
        let net = ModuleNetwork { modules, input_idx, names, outputs, queue: VecDeque::new() };
        proof {
            assert(net.state().modules =~= all_cleared(net.state().modules));
            assert(net.names() == texts(net.names@));
            assert forall|j: int| 0 <= j < ls.len() implies net.is_described(
                (#[trigger] line_of(ls[j]))->Some_0,
            ) by {
                assert(tables_say(net.names@, kinds@, net.outputs@, line_of(ls[j])->Some_0));
                let m = choose|m: int| #[trigger]
                    said_of(net.names@, kinds@, net.outputs@, m, line_of(ls[j])->Some_0);
                assert(net.describes(m, line_of(ls[j])->Some_0));
            }
        }
        net
    }

    /// Reads a network.
    pub fn parse(s: &str) -> (r: Result<ModuleNetwork, InputError>)
        ensures
            r is Ok ==> r->Ok_0.wf() && r->Ok_0.state().queue.len() == 0,
            r is Ok <==> is_readable(s.spec_bytes()),
            r is Ok ==> r->Ok_0.says(s.spec_bytes()),
    {
        ModuleNetwork::from_bytes(s.as_bytes())
    }
}

/// Whether the tables say of module `m` what a line says.
pub open spec fn said_of(
    names: Seq<Vec<u8>>,
    kinds: Seq<u8>,
    outputs: Seq<Vec<(usize, usize)>>,
    m: int,
    said: (u8, Seq<u8>, Seq<Seq<u8>>),
) -> bool {
    &&& 0 <= m < names.len()
    &&& names[m]@ == said.1
    &&& kinds[m] == said.0
    &&& said.0 != 0
    &&& outputs[m]@.len() == said.2.len()
    &&& forall|k: int|
        0 <= k < said.2.len() ==> (#[trigger] outputs[m]@[k]).0 < names.len()
            && names[outputs[m]@[k].0 as int]@ == said.2[k]
}

/// Whether the tables say of some module what a line says.
pub open spec fn tables_say(
    names: Seq<Vec<u8>>,
    kinds: Seq<u8>,
    outputs: Seq<Vec<(usize, usize)>>,
    said: (u8, Seq<u8>, Seq<Seq<u8>>),
) -> bool {
    exists|m: int| #[trigger] said_of(names, kinds, outputs, m, said)
}

impl std::str::FromStr for ModuleNetwork {
    type Err = InputError;

    fn from_str(s: &str) -> (r: Result<Self, Self::Err>) {
        ModuleNetwork::parse(s)
    }
}

} // verus!
