//! Transactions: value transfers made of signed inputs and produced outputs.

use vstd::prelude::*;
use crate::crypto::{ed25519_accepts, ed25519_verify};
use crate::encoding::{
    u64_bytes, field_bytes, push_u64, push_field, read_u64, read_field, lemma_subrange_split,
    concat_bytes, lemma_concat_prefix, lemma_concat_len, lemma_subrange_parts,
    lemma_u64_bytes_injective, prefix_free, lemma_cut, lemma_u64_prefix, lemma_field_prefix,
    lemma_concat_prefix_free,
};
use vstd::std_specs::vec::axiom_spec_len;
use vstd::bytes::lemma_auto_spec_u64_to_from_le_bytes;

verus! {

/// The most a coinbase (minting reward) transaction may create.
pub const BLOCK_REWARD: u64 = 50;

/// Names an output: the block that holds it, the transaction's position in
/// that block, and the output's position in that transaction.
#[derive(Clone, Copy, Debug, PartialEq, Eq, Structural)]
pub struct OutputRef {
    pub block: u64,
    pub tx: u64,
    pub output: u64,
}

/// An amount paid to the holder of a public key.
#[derive(Clone, Debug)]
pub struct Output {
    pub recipient: Vec<u8>,
    pub amount: u64,
}

/// Consumes an earlier output. `spent` repeats the referenced output, and
/// `signature` is its recipient's signature over the transaction's message.
#[derive(Clone, Debug)]
pub struct Input {
    pub source: OutputRef,
    pub spent: Output,
    pub signature: Vec<u8>,
}

#[derive(Clone, Debug)]
pub struct Transaction {
    pub id: u64,
    pub inputs: Vec<Input>,
    pub outputs: Vec<Output>,
}

pub open spec fn ref_bytes(r: OutputRef) -> Seq<u8> {
    u64_bytes(r.block) + u64_bytes(r.tx) + u64_bytes(r.output)
}

pub open spec fn output_bytes(o: Output) -> Seq<u8> {
    field_bytes(o.recipient@) + u64_bytes(o.amount)
}

pub open spec fn output_encoder() -> spec_fn(Output) -> Seq<u8> {
    |x: Output| output_bytes(x)
}

pub open spec fn outputs_bytes(s: Seq<Output>) -> Seq<u8> {
    concat_bytes(s, output_encoder())
}

pub open spec fn input_bytes(i: Input) -> Seq<u8> {
    ref_bytes(i.source) + output_bytes(i.spent) + field_bytes(i.signature@)
}

pub open spec fn input_encoder() -> spec_fn(Input) -> Seq<u8> {
    |x: Input| input_bytes(x)
}

pub open spec fn inputs_bytes(s: Seq<Input>) -> Seq<u8> {
    concat_bytes(s, input_encoder())
}

/// The canonical byte representation of a transaction.
pub open spec fn transaction_bytes(t: Transaction) -> Seq<u8> {
    u64_bytes(t.id) + u64_bytes(t.inputs@.len() as u64) + inputs_bytes(t.inputs@)
        + u64_bytes(t.outputs@.len() as u64) + outputs_bytes(t.outputs@)
}

/// The message an input's signature covers: the transaction id, the output it
/// spends, and every output the transaction produces.
pub open spec fn signing_message(id: u64, source: OutputRef, outputs: Seq<Output>) -> Seq<u8> {
    u64_bytes(id) + ref_bytes(source) + u64_bytes(outputs.len() as u64) + outputs_bytes(outputs)
}

pub open spec fn sum_outputs(s: Seq<Output>) -> int
    decreases s.len(),
{
    if s.len() == 0 {
        0
    } else {
        sum_outputs(s.drop_last()) + s.last().amount
    }
}

pub open spec fn sum_spent(s: Seq<Input>) -> int
    decreases s.len(),
{
    if s.len() == 0 {
        0
    } else {
        sum_spent(s.drop_last()) + s.last().spent.amount
    }
}

pub open spec fn outputs_positive(s: Seq<Output>) -> bool {
    forall|i: int| 0 <= i < s.len() ==> #[trigger] s[i].amount > 0
}

pub open spec fn input_signed(t: Transaction, k: int) -> bool {
    ed25519_accepts(
        t.inputs@[k].spent.recipient@,
        signing_message(t.id, t.inputs@[k].source, t.outputs@),
        t.inputs@[k].signature@,
    )
}

/// A transfer: it spends at least one output, every input is signed by the
/// recipient of the output it spends, it pays positive amounts, and it pays
/// out no more than it spends (the difference is the fee).
pub open spec fn is_valid_transfer(t: Transaction) -> bool {
    &&& t.inputs@.len() > 0
    &&& t.outputs@.len() > 0
    &&& outputs_positive(t.outputs@)
    &&& forall|k: int| 0 <= k < t.inputs@.len() ==> #[trigger] input_signed(t, k)
    &&& sum_spent(t.inputs@) >= sum_outputs(t.outputs@)
}

/// A coinbase: no inputs, at least one positive output, at most the reward in all.
pub open spec fn is_valid_coinbase(t: Transaction) -> bool {
    &&& t.inputs@.len() == 0
    &&& t.outputs@.len() > 0
    &&& outputs_positive(t.outputs@)
    &&& sum_outputs(t.outputs@) <= BLOCK_REWARD
}

proof fn lemma_sum_outputs_bound(s: Seq<Output>)
    ensures
        0 <= sum_outputs(s) <= s.len() * (u64::MAX as int),
    decreases s.len(),
{
    if s.len() > 0 {
        lemma_sum_outputs_bound(s.drop_last());
    }
}

proof fn lemma_sum_spent_bound(s: Seq<Input>)
    ensures
        0 <= sum_spent(s) <= s.len() * (u64::MAX as int),
    decreases s.len(),
{
    if s.len() > 0 {
        lemma_sum_spent_bound(s.drop_last());
    }
}

/// Transactions with different ids have different encodings.
pub proof fn lemma_transaction_id_changes_bytes(a: Transaction, b: Transaction)
    requires
        a.id != b.id,
    ensures
        transaction_bytes(a) != transaction_bytes(b),
{
    lemma_auto_spec_u64_to_from_le_bytes();
    lemma_u64_bytes_injective(a.id, b.id);
    assert(transaction_bytes(a).subrange(0, 8) =~= u64_bytes(a.id));
    assert(transaction_bytes(b).subrange(0, 8) =~= u64_bytes(b.id));
}

proof fn lemma_output_prefix(x: Output, y: Output, r1: Seq<u8>, r2: Seq<u8>)
    requires
        output_bytes(x) + r1 == output_bytes(y) + r2,
    ensures
        output_bytes(x) == output_bytes(y),
{
    axiom_spec_len(&x.recipient);
    axiom_spec_len(&y.recipient);
    assert(output_bytes(x) + r1 =~= field_bytes(x.recipient@) + (u64_bytes(x.amount) + r1));
    assert(output_bytes(y) + r2 =~= field_bytes(y.recipient@) + (u64_bytes(y.amount) + r2));
    lemma_field_prefix(x.recipient@, y.recipient@, u64_bytes(x.amount) + r1, u64_bytes(y.amount) + r2);
    lemma_u64_prefix(x.amount, y.amount, r1, r2);
}

proof fn lemma_input_prefix(x: Input, y: Input, r1: Seq<u8>, r2: Seq<u8>)
    requires
        input_bytes(x) + r1 == input_bytes(y) + r2,
    ensures
        input_bytes(x) == input_bytes(y),
{
    lemma_auto_spec_u64_to_from_le_bytes();
    axiom_spec_len(&x.signature);
    axiom_spec_len(&y.signature);
    let sx = field_bytes(x.signature@) + r1;
    let sy = field_bytes(y.signature@) + r2;
    assert(input_bytes(x) + r1 =~= ref_bytes(x.source) + (output_bytes(x.spent) + sx));
    assert(input_bytes(y) + r2 =~= ref_bytes(y.source) + (output_bytes(y.spent) + sy));
    lemma_cut(ref_bytes(x.source), ref_bytes(y.source), output_bytes(x.spent) + sx, output_bytes(y.spent) + sy);
    lemma_output_prefix(x.spent, y.spent, sx, sy);
    lemma_cut(output_bytes(x.spent), output_bytes(y.spent), sx, sy);
    lemma_field_prefix(x.signature@, y.signature@, r1, r2);
}

/// No output's encoding is a proper prefix of another's.
pub proof fn lemma_outputs_prefix_free()
    ensures
        prefix_free(output_encoder()),
{
    assert forall|x: Output, y: Output, r1: Seq<u8>, r2: Seq<u8>|
        #[trigger] (output_encoder()(x) + r1) == #[trigger] (output_encoder()(y) + r2) implies output_encoder()(x)
        == output_encoder()(y) by {
        lemma_output_prefix(x, y, r1, r2);
    }
}

/// No input's encoding is a proper prefix of another's.
pub proof fn lemma_inputs_prefix_free()
    ensures
        prefix_free(input_encoder()),
{
    assert forall|x: Input, y: Input, r1: Seq<u8>, r2: Seq<u8>|
        #[trigger] (input_encoder()(x) + r1) == #[trigger] (input_encoder()(y) + r2) implies input_encoder()(x)
        == input_encoder()(y) by {
        lemma_input_prefix(x, y, r1, r2);
    }
}

/// A transaction's encoding is read back whatever follows it.
pub proof fn lemma_transaction_prefix(x: Transaction, y: Transaction, r1: Seq<u8>, r2: Seq<u8>)
    requires
        transaction_bytes(x) + r1 == transaction_bytes(y) + r2,
    ensures
        transaction_bytes(x) == transaction_bytes(y),
        r1 == r2,
{
    axiom_spec_len(&x.inputs);
    axiom_spec_len(&y.inputs);
    axiom_spec_len(&x.outputs);
    axiom_spec_len(&y.outputs);
    lemma_inputs_prefix_free();
    lemma_outputs_prefix_free();
    let ox = outputs_bytes(x.outputs@) + r1;
    let oy = outputs_bytes(y.outputs@) + r2;
    let nx = u64_bytes(x.outputs@.len() as u64) + ox;
    let ny = u64_bytes(y.outputs@.len() as u64) + oy;
    let ix = inputs_bytes(x.inputs@) + nx;
    let iy = inputs_bytes(y.inputs@) + ny;
    assert(transaction_bytes(x) + r1 =~= u64_bytes(x.id) + (u64_bytes(x.inputs@.len() as u64) + ix));
    assert(transaction_bytes(y) + r2 =~= u64_bytes(y.id) + (u64_bytes(y.inputs@.len() as u64) + iy));
    lemma_u64_prefix(x.id, y.id, u64_bytes(x.inputs@.len() as u64) + ix, u64_bytes(y.inputs@.len() as u64) + iy);
    lemma_u64_prefix(x.inputs@.len() as u64, y.inputs@.len() as u64, ix, iy);
    lemma_concat_prefix_free(x.inputs@, y.inputs@, input_encoder(), nx, ny);
    lemma_u64_prefix(x.outputs@.len() as u64, y.outputs@.len() as u64, ox, oy);
    lemma_concat_prefix_free(x.outputs@, y.outputs@, output_encoder(), r1, r2);
}

pub fn push_output(buf: &mut Vec<u8>, o: &Output)
    ensures
        final(buf)@ == old(buf)@ + output_bytes(*o),
{
    push_field(buf, &o.recipient);
    push_u64(buf, o.amount);
    assert(buf@ =~= old(buf)@ + output_bytes(*o));
}

pub fn push_outputs(buf: &mut Vec<u8>, outs: &Vec<Output>)
    ensures
        final(buf)@ == old(buf)@ + outputs_bytes(outs@),
{
    let ghost start = buf@;
    let mut i: usize = 0;
    assert(outs@.take(0) =~= Seq::<Output>::empty());
    while i < outs.len()
        invariant
            i <= outs@.len(),
            buf@ == start + outputs_bytes(outs@.take(i as int)),
        decreases outs@.len() - i,
    {
        push_output(buf, &outs[i]);
        assert(outs@.take(i + 1).drop_last() =~= outs@.take(i as int));
        i = i + 1;
        assert(buf@ =~= start + outputs_bytes(outs@.take(i as int)));
    }
    assert(outs@.take(outs@.len() as int) =~= outs@);
}

pub fn push_ref(buf: &mut Vec<u8>, r: OutputRef)
    ensures
        final(buf)@ == old(buf)@ + ref_bytes(r),
{
    push_u64(buf, r.block);
    push_u64(buf, r.tx);
    push_u64(buf, r.output);
    assert(buf@ =~= old(buf)@ + ref_bytes(r));
}

pub fn push_input(buf: &mut Vec<u8>, inp: &Input)
    ensures
        final(buf)@ == old(buf)@ + input_bytes(*inp),
{
    push_ref(buf, inp.source);
    push_output(buf, &inp.spent);
    push_field(buf, &inp.signature);
    assert(buf@ =~= old(buf)@ + input_bytes(*inp));
}

pub fn push_inputs(buf: &mut Vec<u8>, ins: &Vec<Input>)
    ensures
        final(buf)@ == old(buf)@ + inputs_bytes(ins@),
{
    let ghost start = buf@;
    let mut i: usize = 0;
    assert(ins@.take(0) =~= Seq::<Input>::empty());
    while i < ins.len()
        invariant
            i <= ins@.len(),
            buf@ == start + inputs_bytes(ins@.take(i as int)),
        decreases ins@.len() - i,
    {
        push_input(buf, &ins[i]);
        assert(ins@.take(i + 1).drop_last() =~= ins@.take(i as int));
        i = i + 1;
        assert(buf@ =~= start + inputs_bytes(ins@.take(i as int)));
    }
    assert(ins@.take(ins@.len() as int) =~= ins@);
}

pub fn push_transaction(buf: &mut Vec<u8>, t: &Transaction)
    ensures
        final(buf)@ == old(buf)@ + transaction_bytes(*t),
{
    push_u64(buf, t.id);
    push_u64(buf, t.inputs.len() as u64);
    push_inputs(buf, &t.inputs);
    push_u64(buf, t.outputs.len() as u64);
    push_outputs(buf, &t.outputs);
    assert(buf@ =~= old(buf)@ + transaction_bytes(*t));
}

/// The bytes that the input spending `source` must sign.
pub fn signing_message_bytes(id: u64, source: OutputRef, outputs: &Vec<Output>) -> (r: Vec<u8>)
    ensures
        r@ == signing_message(id, source, outputs@),
{
    let mut buf: Vec<u8> = Vec::new();
    push_u64(&mut buf, id);
    push_ref(&mut buf, source);
    push_u64(&mut buf, outputs.len() as u64);
    push_outputs(&mut buf, outputs);
    assert(buf@ =~= signing_message(id, source, outputs@));
    buf
}

fn total_output(outs: &Vec<Output>) -> (r: u128)
    ensures
        r == sum_outputs(outs@),
{
    let mut acc: u128 = 0;
    let mut i: usize = 0;
    assert(outs@.take(0) =~= Seq::<Output>::empty());
    while i < outs.len()
        invariant
            i <= outs@.len(),
            acc == sum_outputs(outs@.take(i as int)),
            acc <= i * (u64::MAX as int),
        decreases outs@.len() - i,
    {
        proof { lemma_sum_outputs_bound(outs@.take(i as int)); }
        assert(outs@.take(i + 1).drop_last() =~= outs@.take(i as int));
        acc = acc + outs[i].amount as u128;
        i = i + 1;
    }
    assert(outs@.take(outs@.len() as int) =~= outs@);
    acc
}

fn total_spent(ins: &Vec<Input>) -> (r: u128)
    ensures
        r == sum_spent(ins@),
{
    let mut acc: u128 = 0;
    let mut i: usize = 0;
    assert(ins@.take(0) =~= Seq::<Input>::empty());
    while i < ins.len()
        invariant
            i <= ins@.len(),
            acc == sum_spent(ins@.take(i as int)),
            acc <= i * (u64::MAX as int),
        decreases ins@.len() - i,
    {
        proof { lemma_sum_spent_bound(ins@.take(i as int)); }
        assert(ins@.take(i + 1).drop_last() =~= ins@.take(i as int));
        acc = acc + ins[i].spent.amount as u128;
        i = i + 1;
    }
    assert(ins@.take(ins@.len() as int) =~= ins@);
    acc
}

fn all_positive(outs: &Vec<Output>) -> (r: bool)
    ensures
        r == outputs_positive(outs@),
{
    let mut i: usize = 0;
    while i < outs.len()
        invariant
            i <= outs@.len(),
            forall|j: int| 0 <= j < i ==> #[trigger] outs@[j].amount > 0,
        decreases outs@.len() - i,
    {
        if outs[i].amount == 0 {
            return false;
        }
        i = i + 1;
    }
    true
}

impl Transaction {
    pub fn new(id: u64, inputs: Vec<Input>, outputs: Vec<Output>) -> (r: Self)
        ensures
            r.id == id,
            r.inputs@ == inputs@,
            r.outputs@ == outputs@,
    {
        Transaction { id, inputs, outputs }
    }

    /// Checks whether the transaction is a valid transfer, signatures included.
    pub fn validate(&self) -> (r: bool)
        ensures
            r == is_valid_transfer(*self),
    {
        if self.inputs.len() == 0 || self.outputs.len() == 0 || !all_positive(&self.outputs) {
            return false;
        }
        let mut k: usize = 0;
        while k < self.inputs.len()
            invariant
                k <= self.inputs@.len(),
                forall|j: int| 0 <= j < k ==> #[trigger] input_signed(*self, j),
            decreases self.inputs@.len() - k,
        {
            let inp = &self.inputs[k];
            let msg = signing_message_bytes(self.id, inp.source, &self.outputs);
            if !ed25519_verify(&inp.spent.recipient, &msg, &inp.signature) {
                assert(!input_signed(*self, k as int));
                return false;
            }
            k = k + 1;
        }
        total_spent(&self.inputs) >= total_output(&self.outputs)
    }

    /// Checks whether the transaction is a valid minting reward.
    pub fn validate_coinbase(&self) -> (r: bool)
        ensures
            r == is_valid_coinbase(*self),
    {
        self.inputs.len() == 0 && self.outputs.len() > 0 && all_positive(&self.outputs)
            && total_output(&self.outputs) <= BLOCK_REWARD as u128
    }
}

pub(crate) fn read_ref(buf: &Vec<u8>, pos: usize, Ghost(e): Ghost<OutputRef>) -> (r: Option<(OutputRef, usize)>)
    ensures
        r is Some ==> pos <= r.unwrap().1 <= buf@.len() && buf@.subrange(
            pos as int,
            r.unwrap().1 as int,
        ) == ref_bytes(r.unwrap().0),
        pos + ref_bytes(e).len() <= buf@.len() ==> r is Some && r.unwrap().1 == pos + ref_bytes(e).len(),
{
    proof { lemma_auto_spec_u64_to_from_le_bytes(); }
    let (block, p1) = match read_u64(buf, pos) { Some(v) => v, None => return None };
    let (tx, p2) = match read_u64(buf, p1) { Some(v) => v, None => return None };
    let (output, p3) = match read_u64(buf, p2) { Some(v) => v, None => return None };
    proof {
        lemma_subrange_split(buf@, pos as int, p1 as int, p2 as int);
        lemma_subrange_split(buf@, pos as int, p2 as int, p3 as int);
    }
    Some((OutputRef { block, tx, output }, p3))
}

pub(crate) fn read_output(buf: &Vec<u8>, pos: usize, Ghost(e): Ghost<Output>) -> (r: Option<(Output, usize)>)
    ensures
        r is Some ==> pos <= r.unwrap().1 <= buf@.len() && buf@.subrange(
            pos as int,
            r.unwrap().1 as int,
        ) == output_bytes(r.unwrap().0),
        pos + output_bytes(e).len() <= buf@.len() && buf@.subrange(pos as int, pos + output_bytes(e).len())
            == output_bytes(e) ==> r is Some && r.unwrap().1 == pos + output_bytes(e).len(),
{
    proof {
        lemma_auto_spec_u64_to_from_le_bytes();
        if pos + output_bytes(e).len() <= buf@.len() && buf@.subrange(pos as int, pos + output_bytes(e).len())
            == output_bytes(e) {
            lemma_subrange_parts(buf@, pos as int, field_bytes(e.recipient@), u64_bytes(e.amount));
        }
    }
    let (recipient, p1) = match read_field(buf, pos, Ghost(e.recipient@)) {
        Some(v) => v,
        None => return None,
    };
    let (amount, p2) = match read_u64(buf, p1) { Some(v) => v, None => return None };
    proof {
        lemma_subrange_split(buf@, pos as int, p1 as int, p2 as int);
    }
    Some((Output { recipient, amount }, p2))
}

pub(crate) fn read_input(buf: &Vec<u8>, pos: usize, Ghost(e): Ghost<Input>) -> (r: Option<(Input, usize)>)
    ensures
        r is Some ==> pos <= r.unwrap().1 <= buf@.len() && buf@.subrange(
            pos as int,
            r.unwrap().1 as int,
        ) == input_bytes(r.unwrap().0),
        pos + input_bytes(e).len() <= buf@.len() && buf@.subrange(pos as int, pos + input_bytes(e).len())
            == input_bytes(e) ==> r is Some && r.unwrap().1 == pos + input_bytes(e).len(),
{
    proof {
        lemma_auto_spec_u64_to_from_le_bytes();
        let a = ref_bytes(e.source);
        let b = output_bytes(e.spent);
        let c = field_bytes(e.signature@);
        if pos + input_bytes(e).len() <= buf@.len() && buf@.subrange(pos as int, pos + input_bytes(e).len())
            == input_bytes(e) {
            lemma_subrange_parts(buf@, pos as int, a + b, c);
            lemma_subrange_parts(buf@, pos as int, a, b);
        }
    }
    let (source, p1) = match read_ref(buf, pos, Ghost(e.source)) { Some(v) => v, None => return None };
    let (spent, p2) = match read_output(buf, p1, Ghost(e.spent)) { Some(v) => v, None => return None };
    let (signature, p3) = match read_field(buf, p2, Ghost(e.signature@)) {
        Some(v) => v,
        None => return None,
    };
    proof {
        lemma_subrange_split(buf@, pos as int, p1 as int, p2 as int);
        lemma_subrange_split(buf@, pos as int, p2 as int, p3 as int);
    }
    Some((Input { source, spent, signature }, p3))
}

/// Reads a count, then that many inputs.
pub(crate) fn read_inputs(buf: &Vec<u8>, pos: usize, Ghost(e): Ghost<Seq<Input>>) -> (r: Option<(Vec<Input>, usize)>)
    ensures
        r is Some ==> pos <= r.unwrap().1 <= buf@.len() && buf@.subrange(
            pos as int,
            r.unwrap().1 as int,
        ) == u64_bytes(r.unwrap().0@.len() as u64) + inputs_bytes(r.unwrap().0@),
        pos + 8 + inputs_bytes(e).len() <= buf@.len() && buf@.subrange(pos as int, pos + 8 + inputs_bytes(e).len())
            == u64_bytes(e.len() as u64) + inputs_bytes(e) ==> r is Some && r.unwrap().1 == pos + 8 + inputs_bytes(e).len(),
{
    let ghost matched = pos + 8 + inputs_bytes(e).len() <= buf@.len() && buf@.subrange(
        pos as int,
        pos + 8 + inputs_bytes(e).len(),
    ) == u64_bytes(e.len() as u64) + inputs_bytes(e);
    let total = buf.len();
    proof {
        lemma_auto_spec_u64_to_from_le_bytes();
        if matched {
            lemma_subrange_parts(buf@, pos as int, u64_bytes(e.len() as u64), inputs_bytes(e));
            assert forall|x: Input| #[trigger] input_encoder()(x).len() >= 8 by {
                lemma_auto_spec_u64_to_from_le_bytes();
            }
            lemma_concat_len(e, input_encoder());
        }
    }
    let (n, start) = match read_u64(buf, pos) { Some(v) => v, None => return None };
    proof {
        if matched {
            assert(e.len() <= total);
            lemma_u64_bytes_injective(n, e.len() as u64);
        }
    }
    let mut v: Vec<Input> = Vec::new();
    let mut cur = start;
    let mut i: u64 = 0;
    assert(buf@.subrange(start as int, start as int) =~= inputs_bytes(v@));
    assert(e.take(0) =~= Seq::<Input>::empty());
    while i < n
        invariant
            pos + 8 == start <= cur <= buf@.len(),
            v@.len() == i <= n,
            buf@.subrange(pos as int, start as int) == u64_bytes(n),
            buf@.subrange(start as int, cur as int) == inputs_bytes(v@),
            matched == (pos + 8 + inputs_bytes(e).len() <= buf@.len() && buf@.subrange(
                pos as int,
                pos + 8 + inputs_bytes(e).len(),
            ) == u64_bytes(e.len() as u64) + inputs_bytes(e)),
            matched ==> n == e.len(),
            matched ==> buf@.subrange(start as int, start + inputs_bytes(e).len()) == inputs_bytes(e),
            matched ==> start + inputs_bytes(e).len() <= buf@.len(),
            matched ==> cur == start + inputs_bytes(e.take(i as int)).len(),
        decreases n - i,
    {
        let ghost item = e[i as int];
        proof {
            if matched {
                lemma_concat_prefix(e, input_encoder(), i as int);
                let upto = inputs_bytes(e.take(i + 1));
                assert(buf@.subrange(start as int, start + upto.len()) =~= inputs_bytes(e).subrange(0, upto.len() as int));
                assert(input_encoder()(item) == input_bytes(item));
                assert(upto == inputs_bytes(e.take(i as int)) + input_bytes(item));
                assert(e.take(i as int).len() == i);
                assert(buf@.subrange(start as int, start + upto.len()) == upto);
                lemma_subrange_parts(buf@, start as int, inputs_bytes(e.take(i as int)), input_bytes(item));
                assert(cur + input_bytes(item).len() <= buf@.len());
                assert(buf@.subrange(cur as int, cur + input_bytes(item).len()) == input_bytes(item));
            }
        }
        let (t, next) = match read_input(buf, cur, Ghost(item)) { Some(x) => x, None => return None };
        proof { lemma_subrange_split(buf@, start as int, cur as int, next as int); }
        let ghost old_v = v@;
        v.push(t);
        assert(v@.drop_last() =~= old_v);
        cur = next;
        i = i + 1;
    }
    proof {
        lemma_subrange_split(buf@, pos as int, start as int, cur as int);
        if matched {
            assert(e.take(e.len() as int) =~= e);
        }
    }
    Some((v, cur))
}

/// Reads a count, then that many outputs.
pub(crate) fn read_outputs(buf: &Vec<u8>, pos: usize, Ghost(e): Ghost<Seq<Output>>) -> (r: Option<(Vec<Output>, usize)>)
    ensures
        r is Some ==> pos <= r.unwrap().1 <= buf@.len() && buf@.subrange(
            pos as int,
            r.unwrap().1 as int,
        ) == u64_bytes(r.unwrap().0@.len() as u64) + outputs_bytes(r.unwrap().0@),
        pos + 8 + outputs_bytes(e).len() <= buf@.len() && buf@.subrange(pos as int, pos + 8 + outputs_bytes(e).len())
            == u64_bytes(e.len() as u64) + outputs_bytes(e) ==> r is Some && r.unwrap().1 == pos + 8 + outputs_bytes(e).len(),
{
    let ghost matched = pos + 8 + outputs_bytes(e).len() <= buf@.len() && buf@.subrange(
        pos as int,
        pos + 8 + outputs_bytes(e).len(),
    ) == u64_bytes(e.len() as u64) + outputs_bytes(e);
    let total = buf.len();
    proof {
        lemma_auto_spec_u64_to_from_le_bytes();
        if matched {
            lemma_subrange_parts(buf@, pos as int, u64_bytes(e.len() as u64), outputs_bytes(e));
            assert forall|x: Output| #[trigger] output_encoder()(x).len() >= 8 by {
                lemma_auto_spec_u64_to_from_le_bytes();
            }
            lemma_concat_len(e, output_encoder());
        }
    }
    let (n, start) = match read_u64(buf, pos) { Some(v) => v, None => return None };
    proof {
        if matched {
            assert(e.len() <= total);
            lemma_u64_bytes_injective(n, e.len() as u64);
        }
    }
    let mut v: Vec<Output> = Vec::new();
    let mut cur = start;
    let mut i: u64 = 0;
    assert(buf@.subrange(start as int, start as int) =~= outputs_bytes(v@));
    assert(e.take(0) =~= Seq::<Output>::empty());
    while i < n
        invariant
            pos + 8 == start <= cur <= buf@.len(),
            v@.len() == i <= n,
            buf@.subrange(pos as int, start as int) == u64_bytes(n),
            buf@.subrange(start as int, cur as int) == outputs_bytes(v@),
            matched == (pos + 8 + outputs_bytes(e).len() <= buf@.len() && buf@.subrange(
                pos as int,
                pos + 8 + outputs_bytes(e).len(),
            ) == u64_bytes(e.len() as u64) + outputs_bytes(e)),
            matched ==> n == e.len(),
            matched ==> buf@.subrange(start as int, start + outputs_bytes(e).len()) == outputs_bytes(e),
            matched ==> start + outputs_bytes(e).len() <= buf@.len(),
            matched ==> cur == start + outputs_bytes(e.take(i as int)).len(),
        decreases n - i,
    {
        let ghost item = e[i as int];
        proof {
            if matched {
                lemma_concat_prefix(e, output_encoder(), i as int);
                let upto = outputs_bytes(e.take(i + 1));
                assert(buf@.subrange(start as int, start + upto.len()) =~= outputs_bytes(e).subrange(0, upto.len() as int));
                assert(output_encoder()(item) == output_bytes(item));
                assert(upto == outputs_bytes(e.take(i as int)) + output_bytes(item));
                assert(e.take(i as int).len() == i);
                assert(buf@.subrange(start as int, start + upto.len()) == upto);
                lemma_subrange_parts(buf@, start as int, outputs_bytes(e.take(i as int)), output_bytes(item));
                assert(cur + output_bytes(item).len() <= buf@.len());
                assert(buf@.subrange(cur as int, cur + output_bytes(item).len()) == output_bytes(item));
            }
        }
        let (t, next) = match read_output(buf, cur, Ghost(item)) { Some(x) => x, None => return None };
        proof { lemma_subrange_split(buf@, start as int, cur as int, next as int); }
        let ghost old_v = v@;
        v.push(t);
        assert(v@.drop_last() =~= old_v);
        cur = next;
        i = i + 1;
    }
    proof {
        lemma_subrange_split(buf@, pos as int, start as int, cur as int);
        if matched {
            assert(e.take(e.len() as int) =~= e);
        }
    }
    Some((v, cur))
}

pub(crate) fn read_transaction(buf: &Vec<u8>, pos: usize, Ghost(e): Ghost<Transaction>) -> (r: Option<(Transaction, usize)>)
    ensures
        r is Some ==> pos <= r.unwrap().1 <= buf@.len() && buf@.subrange(
            pos as int,
            r.unwrap().1 as int,
        ) == transaction_bytes(r.unwrap().0),
        pos + transaction_bytes(e).len() <= buf@.len() && buf@.subrange(pos as int, pos
            + transaction_bytes(e).len()) == transaction_bytes(e) ==> r is Some && r.unwrap().1 == pos
            + transaction_bytes(e).len(),
{
    proof {
        lemma_auto_spec_u64_to_from_le_bytes();
        let a = u64_bytes(e.id);
        let b = u64_bytes(e.inputs@.len() as u64) + inputs_bytes(e.inputs@);
        let c = u64_bytes(e.outputs@.len() as u64) + outputs_bytes(e.outputs@);
        assert(transaction_bytes(e) =~= a + b + c);
        if pos + transaction_bytes(e).len() <= buf@.len() && buf@.subrange(pos as int, pos
            + transaction_bytes(e).len()) == transaction_bytes(e) {
            lemma_subrange_parts(buf@, pos as int, a + b, c);
            lemma_subrange_parts(buf@, pos as int, a, b);
        }
    }
    let (id, p1) = match read_u64(buf, pos) { Some(v) => v, None => return None };
    let (inputs, p2) = match read_inputs(buf, p1, Ghost(e.inputs@)) { Some(v) => v, None => return None };
    let (outputs, p3) = match read_outputs(buf, p2, Ghost(e.outputs@)) { Some(v) => v, None => return None };
    proof {
        lemma_subrange_split(buf@, pos as int, p1 as int, p2 as int);
        lemma_subrange_split(buf@, pos as int, p2 as int, p3 as int);
    }
    let t = Transaction { id, inputs, outputs };
    assert(buf@.subrange(pos as int, p3 as int) =~= transaction_bytes(t));
    Some((t, p3))
}

impl Transaction {
    /// The canonical bytes, as sent to peers.
    pub fn to_bytes(&self) -> (r: Vec<u8>)
        ensures
            r@ == transaction_bytes(*self),
    {
        let mut buf: Vec<u8> = Vec::new();
        push_transaction(&mut buf, self);
        assert(buf@ =~= transaction_bytes(*self));
        buf
    }

    /// Reads a transaction that fills `bytes` exactly.
    pub fn from_bytes(bytes: &Vec<u8>) -> (r: Option<Transaction>)
        ensures
            r is Some ==> transaction_bytes(r.unwrap()) == bytes@,
            r is Some <==> exists|t: Transaction| transaction_bytes(t) == bytes@,
    {
        let ghost e = choose|t: Transaction| transaction_bytes(t) == bytes@;
        proof {
            if exists|t: Transaction| transaction_bytes(t) == bytes@ {
                assert(bytes@.subrange(0, bytes@.len() as int) =~= bytes@);
            }
        }
        match read_transaction(bytes, 0, Ghost(e)) {
            Some((t, end)) => {
                if end == bytes.len() {
                    assert(bytes@.subrange(0, bytes@.len() as int) =~= bytes@);
                    Some(t)
                } else {
                    None
                }
            },
            None => None,
        }
    }
}

} // verus!
