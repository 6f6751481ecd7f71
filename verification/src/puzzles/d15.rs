//! A row of boxes with lenses: every step of the sequence puts a lens into a
//! box or takes one out, and the box is found by a hash of the lens's label.
use crate::text::{fields, split, split_once, split_once_spec, InputError};
use vstd::array::array_as_slice;
use vstd::prelude::*;
use vstd::string::StringSliceAdditionalSpecFns;

verus! {

/// The steps of an initialisation sequence.
pub struct InitSequence {
    steps: Vec<Instruction>,
}

/// One step: its text, how long the label at its start is, and what to do.
pub struct Instruction {
    txt: Vec<u8>,
    label_len: usize,
    operation: Operation,
}

/// What a step does with the lens of its label.
#[derive(Clone, Copy, Debug, PartialEq, Eq, Structural)]
pub enum Operation {
    /// Put a lens of this focal length into the box.
    Place(u8),
    /// Take the lens out of the box.
    Remove,
}

/// The boxes, each with its lenses in order.
pub struct Boxes(Vec<LensBox>);

/// The lenses of one box, in order.
pub struct LensBox(Vec<LensBoxEntry>);

/// A lens: its label and its focal length.
pub struct LensBoxEntry {
    label: Vec<u8>,
    focal_length: u8,
}

/// A step as mathematics.
pub struct StepModel {
    pub txt: Seq<u8>,
    pub label_len: int,
    pub operation: Operation,
}

/// The hash of a text: for every byte in turn, the byte is added, and the sum
/// is taken times 17, modulo 256.
pub open spec fn hash(bytes: Seq<u8>) -> int
    decreases bytes.len(),
{
    if bytes.len() == 0 {
        0
    } else {
        ((hash(bytes.drop_last()) + bytes.last()) * 17) % 256
    }
}

/// The text without its line feeds.
pub open spec fn without_line_feeds(s: Seq<u8>) -> Seq<u8>
    decreases s.len(),
{
    if s.len() == 0 {
        s
    } else if s.last() == 10 {
        without_line_feeds(s.drop_last())
    } else {
        without_line_feeds(s.drop_last()).push(s.last())
    }
}

/// The label of a step.
pub open spec fn label_of(step: StepModel) -> Seq<u8> {
    step.txt.take(step.label_len)
}

/// The place of the first lens with the given label in a box, or the number
/// of lenses if there is none.
pub open spec fn place_of(lenses: Seq<(Seq<u8>, u8)>, label: Seq<u8>) -> int
    decreases lenses.len(),
{
    if lenses.len() == 0 {
        0
    } else if lenses[0].0 == label {
        0
    } else {
        1 + place_of(lenses.drop_first(), label)
    }
}

/// A box after a step: a lens that is placed takes the place of the first lens
/// with its label, or goes to the end; a lens that is removed is the first with
/// its label, if there is one.
pub open spec fn box_after(lenses: Seq<(Seq<u8>, u8)>, label: Seq<u8>, operation: Operation) -> Seq<
    (Seq<u8>, u8),
> {
    let at = place_of(lenses, label);
    match operation {
        Operation::Place(focal_length) => if at < lenses.len() {
            lenses.update(at, (lenses[at].0, focal_length))
        } else {
            lenses.push((label, focal_length))
        },
        Operation::Remove => if at < lenses.len() {
            lenses.remove(at)
        } else {
            lenses
        },
    }
}

/// The boxes after a step, which works on the box whose number is the hash of
/// the step's label.
pub open spec fn boxes_after(boxes: Seq<Seq<(Seq<u8>, u8)>>, step: StepModel) -> Seq<
    Seq<(Seq<u8>, u8)>,
> {
    let number = hash(label_of(step));
    boxes.update(number, box_after(boxes[number], label_of(step), step.operation))
}

/// The boxes after the first `k` steps, from `n` empty boxes.
pub open spec fn boxes_after_all(steps: Seq<StepModel>, n: int, k: int) -> Seq<Seq<(Seq<u8>, u8)>>
    decreases k,
{
    if k <= 0 {
        Seq::new(n as nat, |i: int| Seq::<(Seq<u8>, u8)>::empty())
    } else {
        boxes_after(boxes_after_all(steps, n, k - 1), steps[k - 1])
    }
}

/// The power of the first `k` lenses of a box: for each lens its place,
/// counted from one, times its focal length.
pub open spec fn box_power(lenses: Seq<(Seq<u8>, u8)>, k: int) -> int
    decreases k,
{
    if k <= 0 {
        0
    } else {
        box_power(lenses, k - 1) + k * lenses[k - 1].1
    }
}

/// The power of the first `k` boxes: for each box its number, counted from
/// one, times the power of its lenses.
pub open spec fn focusing_power(boxes: Seq<Seq<(Seq<u8>, u8)>>, k: int) -> int
    decreases k,
{
    if k <= 0 {
        0
    } else {
        focusing_power(boxes, k - 1) + k * box_power(boxes[k - 1], boxes[k - 1].len() as int)
    }
}

/// The sum of the hashes of the first `k` steps.
pub open spec fn hash_sum(steps: Seq<StepModel>, k: int) -> int
    decreases k,
{
    if k <= 0 {
        0
    } else {
        hash_sum(steps, k - 1) + hash(steps[k - 1].txt)
    }
}

/// The step that a piece of the sequence stands for: a label and then either
/// `=` and a digit, the focal length of a lens to place, or `-`. Line feeds are
/// no part of the text.
pub open spec fn step_of(s: Seq<u8>) -> Result<StepModel, InputError> {
    let txt = without_line_feeds(s);
    match split_once_spec(s, seq![61u8]) {
        Some((label, rest)) => if rest.len() > 0 && rest[0] >= 48 && label.len() <= txt.len() {
            Ok(
                StepModel {
                    txt,
                    label_len: label.len() as int,
                    operation: Operation::Place((rest[0] - 48) as u8),
                },
            )
        } else {
            Err(InputError::Syntax)
        },
        None => match split_once_spec(s, seq![45u8]) {
            Some((label, _)) => if label.len() <= txt.len() {
                Ok(StepModel { txt, label_len: label.len() as int, operation: Operation::Remove })
            } else {
                Err(InputError::Syntax)
            },
            None => Err(InputError::Syntax),
        },
    }
}

/// A hash is a number from 0 to 255.
pub proof fn lemma_hash_range(bytes: Seq<u8>)
    ensures
        0 <= hash(bytes) < 256,
    decreases bytes.len(),
{
    if bytes.len() > 0 {
        lemma_hash_range(bytes.drop_last());
    }
}

/// The power of the lenses of a box grows with every lens.
pub proof fn lemma_box_power_grows(lenses: Seq<(Seq<u8>, u8)>, a: int, b: int)
    requires
        0 <= a <= b,
    ensures
        0 <= box_power(lenses, a) <= box_power(lenses, b),
    decreases b,
{
    if a < b {
        lemma_box_power_grows(lenses, a, b - 1);
        assert(b * lenses[b - 1].1 >= 0) by (nonlinear_arith)
            requires
                b >= 0,
                lenses[b - 1].1 >= 0,
        ;
    } else if a > 0 {
        lemma_box_power_grows(lenses, a - 1, a - 1);
        assert(a * lenses[a - 1].1 >= 0) by (nonlinear_arith)
            requires
                a >= 0,
                lenses[a - 1].1 >= 0,
        ;
    }
}

/// The power of the boxes grows with every box.
pub proof fn lemma_focusing_power_grows(boxes: Seq<Seq<(Seq<u8>, u8)>>, a: int, b: int)
    requires
        0 <= a <= b,
    ensures
        0 <= focusing_power(boxes, a) <= focusing_power(boxes, b),
    decreases b,
{
    if a < b {
        lemma_focusing_power_grows(boxes, a, b - 1);
        lemma_box_power_grows(boxes[b - 1], 0, boxes[b - 1].len() as int);
        assert(b * box_power(boxes[b - 1], boxes[b - 1].len() as int) >= 0) by (nonlinear_arith)
            requires
                b >= 0,
                box_power(boxes[b - 1], boxes[b - 1].len() as int) >= 0,
        ;
    } else if a > 0 {
        lemma_focusing_power_grows(boxes, a - 1, a - 1);
        lemma_box_power_grows(boxes[a - 1], 0, boxes[a - 1].len() as int);
        assert(a * box_power(boxes[a - 1], boxes[a - 1].len() as int) >= 0) by (nonlinear_arith)
            requires
                a >= 0,
                box_power(boxes[a - 1], boxes[a - 1].len() as int) >= 0,
        ;
    }
}

/// The sum of hashes grows with every step.
pub proof fn lemma_hash_sum_grows(steps: Seq<StepModel>, a: int, b: int)
    requires
        0 <= a <= b,
    ensures
        0 <= hash_sum(steps, a) <= hash_sum(steps, b),
    decreases b,
{
    if a < b {
        lemma_hash_sum_grows(steps, a, b - 1);
        lemma_hash_range(steps[b - 1].txt);
    } else if a > 0 {
        lemma_hash_sum_grows(steps, a - 1, a - 1);
        lemma_hash_range(steps[a - 1].txt);
    }
}

/// Whether two texts are the same.
pub fn same_bytes(a: &Vec<u8>, b: &Vec<u8>) -> (same: bool)
    ensures
        same == (a@ == b@),
{
    if a.len() != b.len() {
        return false;
    }
    let mut i: usize = 0;
    while i < a.len()
        invariant
            i <= a.len(),
            a.len() == b.len(),
            forall|j: int| 0 <= j < i ==> a@[j] == b@[j],
        decreases a.len() - i,
    {
        if a[i] != b[i] {
            return false;
        }
        i += 1;
    }
    proof {
        assert(a@ =~= b@);
    }
    true
}

impl Instruction {
    /// The step as mathematics.
    pub closed spec fn view(&self) -> StepModel {
        StepModel { txt: self.txt@, label_len: self.label_len as int, operation: self.operation }
    }

    /// The label is a part of the text.
    pub closed spec fn wf(&self) -> bool {
        self.label_len <= self.txt@.len()
    }

    /// The label of the step.
    pub fn label(&self) -> (r: Vec<u8>)
        requires
            self.wf(),
        ensures
            r@ == label_of(self.view()),
    {
        let mut label: Vec<u8> = Vec::new();
        let mut i: usize = 0;
        while i < self.label_len
            invariant
                i <= self.label_len <= self.txt.len(),
                label@ == self.txt@.take(i as int),
            decreases self.label_len - i,
        {
            label.push(self.txt[i]);
            proof {
                assert(self.txt@.take(i + 1) =~= self.txt@.take(i as int).push(self.txt@[i as int]));
            }
            i += 1;
        }
        label
    }

    /// The hash of the whole text of the step.
    pub fn hash_instruction(&self) -> (r: u8)
        ensures
            r == hash(self.view().txt),
    {
        Self::hash_bytes(&self.txt)
    }

    /// The hash of the label of the step.
    pub fn hash_label(&self) -> (r: u8)
        requires
            self.wf(),
        ensures
            r == hash(label_of(self.view())),
    {
        let label = self.label();
        Self::hash_bytes(&label)
    }

    /// The hash of a text.
    pub fn hash_bytes(bytes: &Vec<u8>) -> (r: u8)
        ensures
            r == hash(bytes@),
    {
        let mut val: u32 = 0;
        let mut i: usize = 0;
        while i < bytes.len()
            invariant
                i <= bytes.len(),
                val == hash(bytes@.take(i as int)),
                val < 256,
            decreases bytes.len() - i,
        {
            proof {
                assert(bytes@.take(i + 1).drop_last() =~= bytes@.take(i as int));
            }
            val = val + bytes[i] as u32;
            val = val * 17;
            val = val % 256;
            i += 1;
        }
        proof {
            assert(bytes@.take(bytes.len() as int) =~= bytes@);
        }
        val as u8
    }

    /// Reads a step from the text between `from` and `to`.
    pub fn from_bytes(text: &[u8], from: usize, to: usize) -> (r: Result<Instruction, InputError>)
        requires
            from <= to <= text.len(),
        ensures
            match (r, step_of(text@.subrange(from as int, to as int))) {
                (Ok(step), Ok(model)) => step.view() == model && step.wf(),
                (Err(e), Err(f)) => e == f,
                _ => false,
            },
    {
        let ghost s = text@.subrange(from as int, to as int);
        let mut txt: Vec<u8> = Vec::new();
        let mut i: usize = from;
        while i < to
            invariant
                from <= i <= to <= text.len(),
                s == text@.subrange(from as int, to as int),
                txt@ == without_line_feeds(s.take(i - from)),
            decreases to - i,
        {
            proof {
                assert(s.take(i - from + 1).drop_last() =~= s.take(i - from));
            }
            if text[i] != 10 {
                txt.push(text[i]);
            }
            i += 1;
        }
        proof {
            assert(s.take(to - from) =~= s);
        }
        let equals: [u8; 1] = [61];
        let dash: [u8; 1] = [45];
        proof {
            assert(equals@ =~= seq![61u8]);
            assert(dash@ =~= seq![45u8]);
        }
        match split_once(text, from, to, array_as_slice(&equals)) {
            Some(pos) => {
                if pos + 1 < to && text[pos + 1] >= 48 && pos - from <= txt.len() {
                    let focal_length: u8 = text[pos + 1] - 48;
                    Ok(
                        Instruction {
                            txt,
                            label_len: pos - from,
                            operation: Operation::Place(focal_length),
                        },
                    )
                } else {
                    Err(InputError::Syntax)
                }
            },
            None => match split_once(text, from, to, array_as_slice(&dash)) {
                Some(pos) => {
                    if pos - from <= txt.len() {
                        Ok(Instruction { txt, label_len: pos - from, operation: Operation::Remove })
                    } else {
                        Err(InputError::Syntax)
                    }
                },
                None => Err(InputError::Syntax),
            },
        }
    }
}

impl LensBox {
    /// The lenses as mathematics.
    pub closed spec fn view(&self) -> Seq<(Seq<u8>, u8)> {
        Seq::new(self.0@.len(), |i: int| (self.0@[i].label@, self.0@[i].focal_length))
    }

    /// The place of the first lens with the given label, if there is one.
    pub fn position(&self, label: &Vec<u8>) -> (r: Option<usize>)
        ensures
            r is Some <==> place_of(self.view(), label@) < self.view().len(),
            r is Some ==> r->Some_0 == place_of(self.view(), label@),
    {
        let mut i: usize = 0;
        proof {
            assert(self.view().skip(0) =~= self.view());
        }
        while i < self.0.len()
            invariant
                i <= self.0.len(),
                place_of(self.view(), label@) == i + place_of(self.view().skip(i as int), label@),
            decreases self.0.len() - i,
        {
            proof {
                assert(self.view().skip(i as int)[0] == self.view()[i as int]);
                assert(self.view().skip(i as int).drop_first() =~= self.view().skip(i + 1));
            }
            if same_bytes(&self.0[i].label, label) {
                return Some(i);
            }
            i += 1;
        }
        proof {
            assert(self.view().skip(i as int).len() == 0);
        }
        None
    }

    /// Does to the box what a step asks for.
    pub fn apply(&mut self, label: Vec<u8>, operation: Operation)
        ensures
            final(self).view() == box_after(old(self).view(), label@, operation),
    {
        let found = self.position(&label);
        let ghost before = self.view();
        match operation {
            Operation::Place(focal_length) => {
                match found {
                    Some(pos) => {
                        let old_label = self.0.remove(pos);
                        self.0.insert(
                            pos,
                            LensBoxEntry { label: old_label.label, focal_length },
                        );
                        proof {
                            assert(self.view() =~= before.update(
                                pos as int,
                                (before[pos as int].0, focal_length),
                            ));
                        }
                    },
                    None => {
                        self.0.push(LensBoxEntry { label, focal_length });
                        proof {
                            assert(self.view() =~= before.push((label@, focal_length)));
                        }
                    },
                }
            },
            Operation::Remove => {
                match found {
                    Some(pos) => {
                        self.0.remove(pos);
                        proof {
                            assert(self.view() =~= before.remove(pos as int));
                        }
                    },
                    None => {},
                }
            },
        }
    }

    /// The power of the lenses of the box, where it fits in 32 bits.
    pub fn checked_power(&self) -> (r: Option<u32>)
        ensures
            0 <= box_power(self.view(), self.view().len() as int),
            r == (if box_power(self.view(), self.view().len() as int) <= u32::MAX {
                Some(box_power(self.view(), self.view().len() as int) as u32)
            } else {
                None
            }),
    {
        let mut total: u64 = 0;
        let mut i: usize = 0;
        proof {
            lemma_box_power_grows(self.view(), 0, self.view().len() as int);
        }
        while i < self.0.len()
            invariant
                i <= self.0.len(),
                self.0.len() == self.view().len(),
                total == box_power(self.view(), i as int),
                total <= u32::MAX,
            decreases self.0.len() - i,
        {
            proof {
                lemma_box_power_grows(self.view(), i + 1, self.view().len() as int);
                let f = self.view()[i as int].1;
                assert(f == self.0@[i as int].focal_length);
            }
            let focal = self.0[i].focal_length as u64;
            if i >= 0xffff_ffff {
                if focal > 0 {
                    proof {
                        let f = self.view()[i as int].1 as int;
                        assert((i + 1) * f > u32::MAX) by (nonlinear_arith)
                            requires
                                i + 1 > u32::MAX,
                                f >= 1,
                        ;
                    }
                    return None;
                }
                proof {
                    assert((i + 1) * 0 == 0);
                }
            } else {
                proof {
                    assert((i + 1) * focal <= u32::MAX * 255) by (nonlinear_arith)
                        requires
                            i + 1 <= u32::MAX,
                            focal <= 255,
                    ;
                }
                total = total + (i as u64 + 1) * focal;
                if total > 0xffff_ffff {
                    return None;
                }
            }
            i += 1;
        }
        Some(total as u32)
    }

    /// The power of the lenses of the box.
    pub fn power(&self) -> (r: u64)
        requires
            box_power(self.view(), self.view().len() as int) <= u32::MAX,
        ensures
            r == box_power(self.view(), self.view().len() as int),
    {
        let mut total: u64 = 0;
        let mut i: usize = 0;
        while i < self.0.len()
            invariant
                i <= self.0.len(),
                self.0.len() == self.view().len(),
                box_power(self.view(), self.view().len() as int) <= u32::MAX,
                total == box_power(self.view(), i as int),
            decreases self.0.len() - i,
        {
            proof {
                lemma_box_power_grows(self.view(), i + 1, self.view().len() as int);
                lemma_box_power_grows(self.view(), i as int, i + 1);
                let f = self.view()[i as int].1;
                assert(f == self.0@[i as int].focal_length);
                assert((i + 1) * f <= box_power(self.view(), i + 1));
            }
            let focal = self.0[i].focal_length as u64;
            total = total + (i as u64 + 1) * focal;
            i += 1;
        }
        total
    }
}

impl Boxes {
    /// The boxes as mathematics.
    pub closed spec fn view(&self) -> Seq<Seq<(Seq<u8>, u8)>> {
        Seq::new(self.0@.len(), |i: int| self.0@[i].view())
    }

    /// `n` empty boxes.
    pub fn new(n: usize) -> (r: Self)
        ensures
            r.view() == Seq::new(n as nat, |i: int| Seq::<(Seq<u8>, u8)>::empty()),
    {
        let mut boxes: Vec<LensBox> = Vec::new();
        let mut i: usize = 0;
        while i < n
            invariant
                i <= n,
                boxes.len() == i,
                forall|j: int| 0 <= j < i ==> (#[trigger] boxes@[j]).view().len() == 0,
            decreases n - i,
        {
            let empty = LensBox(Vec::new());
            proof {
                assert(empty.view().len() == 0);
            }
            boxes.push(empty);
            i += 1;
        }
        let r = Boxes(boxes);
        proof {
            assert forall|j: int| 0 <= j < n implies (#[trigger] r.view()[j]) == Seq::<
                (Seq<u8>, u8),
            >::empty() by {
                assert(r.0@[j].view().len() == 0);
                assert(r.0@[j].view() =~= Seq::<(Seq<u8>, u8)>::empty());
            }
            assert(r.view() =~= Seq::new(n as nat, |i: int| Seq::<(Seq<u8>, u8)>::empty()));
        }
        r
    }

    /// Does what a step asks for, to the box whose number is the hash of the
    /// step's label.
    pub fn apply(&mut self, instruction: &Instruction)
        requires
            instruction.wf(),
            old(self).view().len() == 256,
        ensures
            final(self).view() == boxes_after(old(self).view(), instruction.view()),
    {
        let number = instruction.hash_label() as usize;
        let ghost before = self.view();
        let mut this_box = self.0.remove(number);
        let ghost others = self.0@;
        this_box.apply(instruction.label(), instruction.operation);
        self.0.insert(number, this_box);
        proof {
            assert forall|j: int| 0 <= j < 256 implies (#[trigger] self.view()[j]) == boxes_after(
                before,
                instruction.view(),
            )[j] by {
                if j < number {
                    assert(self.0@[j] == others[j]);
                } else if j > number {
                    assert(self.0@[j] == others[j - 1]);
                }
            }
            assert(self.view() =~= boxes_after(before, instruction.view()));
        }
    }

    /// The power of the boxes, where it fits in 32 bits.
    pub fn checked_total_focusing_power(&self) -> (r: Option<u32>)
        ensures
            0 <= focusing_power(self.view(), self.view().len() as int),
            r == (if focusing_power(self.view(), self.view().len() as int) <= u32::MAX {
                Some(focusing_power(self.view(), self.view().len() as int) as u32)
            } else {
                None
            }),
    {
        let mut total: u64 = 0;
        let mut i: usize = 0;
        proof {
            lemma_focusing_power_grows(self.view(), 0, self.view().len() as int);
        }
        while i < self.0.len()
            invariant
                i <= self.0.len(),
                self.0.len() == self.view().len(),
                total == focusing_power(self.view(), i as int),
                total <= u32::MAX,
            decreases self.0.len() - i,
        {
            proof {
                let lenses = self.view()[i as int];
                lemma_focusing_power_grows(self.view(), i + 1, self.view().len() as int);
                assert(self.0@[i as int].view() == lenses);
            }
            let ghost p = box_power(self.view()[i as int], self.view()[i as int].len() as int);
            let in_box = match self.0[i].checked_power() {
                Some(v) => v as u64,
                None => {
                    proof {
                        assert((i + 1) * p >= p) by (nonlinear_arith)
                            requires
                                p >= 0,
                                i >= 0,
                        ;
                    }
                    return None;
                },
            };
            if i >= 0xffff_ffff {
                if in_box > 0 {
                    proof {
                        assert((i + 1) * p > u32::MAX) by (nonlinear_arith)
                            requires
                                i + 1 > u32::MAX,
                                p >= 1,
                        ;
                    }
                    return None;
                }
                proof {
                    assert((i + 1) * 0 == 0);
                }
            } else {
                proof {
                    assert((i + 1) * in_box <= u32::MAX * u32::MAX) by (nonlinear_arith)
                        requires
                            i + 1 <= u32::MAX,
                            in_box <= u32::MAX,
                    ;
                }
                total = total + (i as u64 + 1) * in_box;
                if total > 0xffff_ffff {
                    return None;
                }
            }
            i += 1;
        }
        Some(total as u32)
    }

    /// The power of all boxes.
    pub fn total_focusing_power(&self) -> (r: u32)
        requires
            focusing_power(self.view(), self.view().len() as int) <= u32::MAX,
        ensures
            r == focusing_power(self.view(), self.view().len() as int),
    {
        let mut total: u64 = 0;
        let mut i: usize = 0;
        while i < self.0.len()
            invariant
                i <= self.0.len(),
                self.0.len() == self.view().len(),
                focusing_power(self.view(), self.view().len() as int) <= u32::MAX,
                total == focusing_power(self.view(), i as int),
            decreases self.0.len() - i,
        {
            proof {
                let lenses = self.view()[i as int];
                lemma_focusing_power_grows(self.view(), i + 1, self.view().len() as int);
                lemma_focusing_power_grows(self.view(), i as int, i + 1);
                lemma_box_power_grows(lenses, 0, lenses.len() as int);
                let p = box_power(lenses, lenses.len() as int);
                assert((i + 1) * p <= focusing_power(self.view(), i + 1));
                assert(p <= (i + 1) * p) by (nonlinear_arith)
                    requires
                        p >= 0,
                        i >= 0,
                ;
                assert(self.0@[i as int].view() == lenses);
            }
            let box_power = self.0[i].power();
            total = total + (i as u64 + 1) * box_power;
            i += 1;
        }
        total as u32
    }
}

impl InitSequence {
    /// The steps as mathematics.
    pub closed spec fn view(&self) -> Seq<StepModel> {
        Seq::new(self.steps@.len(), |i: int| self.steps@[i].view())
    }

    /// In every step the label is a part of the text.
    pub closed spec fn wf(&self) -> bool {
        forall|i: int| 0 <= i < self.steps@.len() ==> (#[trigger] self.steps@[i]).wf()
    }

    /// The sum of the hashes of the steps, where it fits in 32 bits.
    pub fn checked_sum_hashes(&self) -> (r: Option<u32>)
        ensures
            0 <= hash_sum(self.view(), self.view().len() as int),
            r == (if hash_sum(self.view(), self.view().len() as int) <= u32::MAX {
                Some(hash_sum(self.view(), self.view().len() as int) as u32)
            } else {
                None
            }),
    {
        let mut total: u64 = 0;
        let mut i: usize = 0;
        proof {
            lemma_hash_sum_grows(self.view(), 0, self.view().len() as int);
        }
        while i < self.steps.len()
            invariant
                i <= self.steps.len(),
                self.steps.len() == self.view().len(),
                total == hash_sum(self.view(), i as int),
                total <= u32::MAX,
            decreases self.steps.len() - i,
        {
            proof {
                lemma_hash_sum_grows(self.view(), i + 1, self.view().len() as int);
                assert(self.view()[i as int] == self.steps@[i as int].view());
            }
            total = total + self.steps[i].hash_instruction() as u64;
            if total > 0xffff_ffff {
                return None;
            }
            i += 1;
        }
        Some(total as u32)
    }

    /// The power of the boxes once every step has been taken, where it fits
    /// in 32 bits.
    pub fn checked_total_resulting_power(&self) -> (r: Option<u32>)
        requires
            self.wf(),
        ensures
            r == (if focusing_power(
                boxes_after_all(self.view(), 256, self.view().len() as int),
                256,
            ) <= u32::MAX {
                Some(
                    focusing_power(
                        boxes_after_all(self.view(), 256, self.view().len() as int),
                        256,
                    ) as u32,
                )
            } else {
                None
            }),
    {
        let mut boxes = Boxes::new(256);
        let mut i: usize = 0;
        while i < self.steps.len()
            invariant
                i <= self.steps.len(),
                self.wf(),
                self.steps.len() == self.view().len(),
                boxes.view() == boxes_after_all(self.view(), 256, i as int),
                boxes.view().len() == 256,
            decreases self.steps.len() - i,
        {
            proof {
                assert(self.view()[i as int] == self.steps@[i as int].view());
                lemma_hash_range(label_of(self.view()[i as int]));
            }
            boxes.apply(&self.steps[i]);
            i += 1;
        }
        boxes.checked_total_focusing_power()
    }

    /// The sum of the hashes of the steps.
    pub fn sum_hashes(&self) -> (r: u32)
        requires
            hash_sum(self.view(), self.view().len() as int) <= u32::MAX,
        ensures
            r == hash_sum(self.view(), self.view().len() as int),
    {
        let mut total: u32 = 0;
        let mut i: usize = 0;
        while i < self.steps.len()
            invariant
                i <= self.steps.len(),
                self.steps.len() == self.view().len(),
                hash_sum(self.view(), self.view().len() as int) <= u32::MAX,
                total == hash_sum(self.view(), i as int),
            decreases self.steps.len() - i,
        {
            proof {
                lemma_hash_sum_grows(self.view(), i + 1, self.view().len() as int);
                assert(self.view()[i as int] == self.steps@[i as int].view());
            }
            total = total + self.steps[i].hash_instruction() as u32;
            i += 1;
        }
        total
    }

    /// The power of the 256 boxes after all steps.
    pub fn total_resulting_power(&self) -> (r: u32)
        requires
            self.wf(),
            focusing_power(boxes_after_all(self.view(), 256, self.view().len() as int), 256)
                <= u32::MAX,
        ensures
            r == focusing_power(
                boxes_after_all(self.view(), 256, self.view().len() as int),
                256,
            ),
    {
        let mut boxes = Boxes::new(256);
        let mut i: usize = 0;
        while i < self.steps.len()
            invariant
                i <= self.steps.len(),
                self.wf(),
                self.steps.len() == self.view().len(),
                boxes.view() == boxes_after_all(self.view(), 256, i as int),
                boxes.view().len() == 256,
            decreases self.steps.len() - i,
        {
            proof {
                assert(self.view()[i as int] == self.steps@[i as int].view());
                lemma_hash_range(label_of(self.view()[i as int]));
            }
            boxes.apply(&self.steps[i]);
            i += 1;
        }
        boxes.total_focusing_power()
    }

    /// Reads a sequence: its steps, parted by commas.
    pub fn from_bytes(text: &[u8]) -> (r: Result<InitSequence, InputError>)
        ensures
            r is Ok <==> forall|i: int|
                0 <= i < fields(text@, 44).len() ==> (#[trigger] step_of(fields(text@, 44)[i])) is Ok,
            r is Ok ==> r->Ok_0.wf() && r->Ok_0.view() == Seq::new(
                fields(text@, 44).len(),
                |i: int| step_of(fields(text@, 44)[i])->Ok_0,
            ),
            r is Err ==> r == Err::<InitSequence, InputError>(InputError::Syntax),
    {
        let spans = split(text, 0, text.len(), 44);
        let ghost pieces = fields(text@, 44);
        proof {
            assert(text@.subrange(0, text@.len() as int) =~= text@);
        }
        let mut steps: Vec<Instruction> = Vec::new();
        let mut i: usize = 0;
        while i < spans.len()
            invariant
                i <= spans.len(),
                spans.len() == pieces.len(),
                pieces == fields(text@, 44),
                crate::text::spans_hold(text@, 0, text@.len() as int, spans@, pieces),
                steps.len() == i,
                forall|j: int|
                    0 <= j < i ==> (#[trigger] step_of(pieces[j])) is Ok && steps@[j].wf()
                        && steps@[j].view() == step_of(pieces[j])->Ok_0,
            decreases spans.len() - i,
        {
            let (from, to) = spans[i];
            match Instruction::from_bytes(text, from, to) {
                Ok(step) => {
                    steps.push(step);
                },
                Err(_) => {
                    proof {
                        assert(step_of(pieces[i as int]) is Err);
                    }
                    return Err(InputError::Syntax);
                },
            }
            i += 1;
        }
        let r = InitSequence { steps };
        proof {
            assert(r.view() =~= Seq::new(
                fields(text@, 44).len(),
                |i: int| step_of(fields(text@, 44)[i])->Ok_0,
            ));
            assert forall|j: int| 0 <= j < r.steps@.len() implies (#[trigger] r.steps@[j]).wf() by {
                assert(step_of(pieces[j]) is Ok);
            }
            assert(r.wf());
        }
        Ok(r)
    }

    /// Reads a sequence.
    pub fn parse(s: &str) -> (r: Result<InitSequence, InputError>)
        ensures
            r is Ok <==> forall|i: int|
                0 <= i < fields(s.spec_bytes(), 44).len() ==> (#[trigger] step_of(
                    fields(s.spec_bytes(), 44)[i],
                )) is Ok,
            r is Ok ==> r->Ok_0.wf() && r->Ok_0.view() == Seq::new(
                fields(s.spec_bytes(), 44).len(),
                |i: int| step_of(fields(s.spec_bytes(), 44)[i])->Ok_0,
            ),
    {
        InitSequence::from_bytes(s.as_bytes())
    }
}

impl std::str::FromStr for InitSequence {
    type Err = InputError;

    fn from_str(s: &str) -> (r: Result<Self, Self::Err>) {
        InitSequence::parse(s)
    }
}

} // verus!
