//! Transactions: outputs, signed inputs, and validity against an unspent-output set.
use vstd::prelude::*;
use crate::codec::{ser_core, ser_tx};
use crate::crypto::{ecdsa_accepts, ecdsa_secret_valid, ecdsa_signature, sha256_of};
use crate::utxo::{UTXOSet, UtxoKey};

verus! {

/// A SHA-256 digest: transaction ids, block ids and parts of unspent-output keys.
pub type Sha256Hash = [u8; 32];

/// An output: an amount payable to the holder of a public key (SEC1 encoding).
#[derive(Clone, Debug)]
pub struct Output {
    pub to_pubkey: Vec<u8>,
    pub amount: u32,
}

pub struct OutputView {
    pub to_pubkey: Seq<u8>,
    pub amount: u32,
}

impl View for Output {
    type V = OutputView;

    open spec fn view(&self) -> OutputView {
        OutputView { to_pubkey: self.to_pubkey@, amount: self.amount }
    }
}

/// An output under construction.
pub struct PartialOutput {
    pub to_pubkey: Option<Vec<u8>>,
    pub amount: Option<u32>,
}

impl Output {
    pub fn new() -> (r: PartialOutput)
        ensures
            r.to_pubkey is None,
            r.amount is None,
    {
        PartialOutput { to_pubkey: None, amount: None }
    }

    pub fn amount(&self) -> (r: u32)
        ensures
            r == self@.amount,
    {
        self.amount
    }

    /// A copy of the output.
    pub fn duplicate(&self) -> (r: Output)
        ensures
            r@ == self@,
    {
        let mut key: Vec<u8> = Vec::new();
        crate::bytes::push_bytes(&mut key, self.to_pubkey.as_slice());
        assert(key@ =~= self.to_pubkey@);
        Output { to_pubkey: key, amount: self.amount }
    }

    pub fn to_pubkey(&self) -> (r: &Vec<u8>)
        ensures
            r@ == self@.to_pubkey,
    {
        &self.to_pubkey
    }
}

impl PartialOutput {
    pub fn set_pubkey(self, key: Vec<u8>) -> (r: Self)
        ensures
            r.to_pubkey matches Some(k) && k@ == key@,
            r.amount == self.amount,
    {
        PartialOutput { to_pubkey: Some(key), amount: self.amount }
    }

    pub fn set_amount(self, amount: u32) -> (r: Self)
        ensures
            r.to_pubkey == self.to_pubkey,
            r.amount == Some(amount),
    {
        PartialOutput { to_pubkey: self.to_pubkey, amount: Some(amount) }
    }

    /// The finished output; both fields must have been set.
    pub fn collect(self) -> (r: Output)
        requires
            self.to_pubkey is Some,
            self.amount is Some,
        ensures
            r@.to_pubkey == self.to_pubkey.unwrap()@,
            r@.amount == self.amount.unwrap(),
    {
        match (self.to_pubkey, self.amount) {
            (Some(k), Some(a)) => Output { to_pubkey: k, amount: a },
            _ => {
                proof {
                    assert(false);
                }
                Output { to_pubkey: Vec::new(), amount: 0 }
            },
        }
    }
}

/// The part of an input that is signed: a reference to an earlier output.
#[derive(Clone, Copy, Debug)]
pub struct InputCore {
    pub tx_id: Sha256Hash,
    pub output_id: u32,
}

/// An input: a reference to an output, with a signature over the reference.
#[derive(Clone, Debug)]
pub struct Input {
    pub core: InputCore,
    pub signature: Vec<u8>,
}

pub struct InputView {
    pub tx_id: Seq<u8>,
    pub output_id: u32,
    pub signature: Seq<u8>,
}

impl View for Input {
    type V = InputView;

    open spec fn view(&self) -> InputView {
        InputView {
            tx_id: self.core.tx_id@,
            output_id: self.core.output_id,
            signature: self.signature@,
        }
    }
}

/// An input under construction.
#[derive(Debug)]
pub struct PartialInput {
    pub tx_id: Option<Sha256Hash>,
    pub output_id: Option<u32>,
}

impl Input {
    pub fn new() -> (r: PartialInput)
        ensures
            r.tx_id is None,
            r.output_id is None,
    {
        PartialInput { tx_id: None, output_id: None }
    }

    pub fn signature(&self) -> (r: &Vec<u8>)
        ensures
            r@ == self@.signature,
    {
        &self.signature
    }

    /// Whether the signature verifies, under `pub_key`, over the encoded core.
    pub fn verify(&self, pub_key: &Vec<u8>) -> (r: bool)
        ensures
            r == input_signed_by(self@, pub_key@),
    {
        let msg = crate::codec::serialize_core(&self.core);
        crate::crypto::ecdsa_verify(pub_key, &msg, &self.signature)
    }
}

/// The signature of an input verifies under `pubkey` over its encoded core.
pub open spec fn input_signed_by(i: InputView, pubkey: Seq<u8>) -> bool {
    ecdsa_accepts(pubkey, ser_core(i.tx_id, i.output_id), i.signature)
}

impl PartialInput {
    pub fn set_tx_id(self, id: &Sha256Hash) -> (r: Self)
        ensures
            r.tx_id == Some(*id),
            r.output_id == self.output_id,
    {
        PartialInput { tx_id: Some(*id), output_id: self.output_id }
    }

    pub fn set_utxo_id(self, id: u32) -> (r: Self)
        ensures
            r.tx_id == self.tx_id,
            r.output_id == Some(id),
    {
        PartialInput { tx_id: self.tx_id, output_id: Some(id) }
    }

    /// Signs the encoded core with a secret key (32 bytes); `None` where the key
    /// is not a valid secp256k1 scalar. Both fields must have been set.
    pub fn sign(self, key: &Vec<u8>) -> (r: Option<Input>)
        requires
            self.tx_id is Some,
            self.output_id is Some,
        ensures
            r is Some <==> ecdsa_secret_valid(key@),
            r matches Some(i) ==> {
                &&& i.core.tx_id == self.tx_id.unwrap()
                &&& i.core.output_id == self.output_id.unwrap()
                &&& i@.signature == ecdsa_signature(
                    key@,
                    ser_core(i@.tx_id, i@.output_id),
                )
            },
    {
        let core = match (self.tx_id, self.output_id) {
            (Some(t), Some(o)) => InputCore { tx_id: t, output_id: o },
            _ => {
                proof {
                    assert(false);
                }
                InputCore { tx_id: [0u8; 32], output_id: 0 }
            },
        };
        let msg = crate::codec::serialize_core(&core);
        match crate::crypto::ecdsa_sign(key, &msg) {
            Some(signature) => Some(Input { core, signature }),
            None => None,
        }
    }
}

/// A transaction: a timestamp (seconds since the Unix epoch), inputs and outputs.
#[derive(Clone, Debug)]
pub struct Transaction {
    pub time_stamp: u64,
    pub inputs: Vec<Input>,
    pub outputs: Vec<Output>,
}

pub struct TransactionView {
    pub time_stamp: u64,
    pub inputs: Seq<InputView>,
    pub outputs: Seq<OutputView>,
}

impl View for Transaction {
    type V = TransactionView;

    open spec fn view(&self) -> TransactionView {
        TransactionView {
            time_stamp: self.time_stamp,
            inputs: self.inputs@.map_values(|i: Input| i@),
            outputs: self.outputs@.map_values(|o: Output| o@),
        }
    }
}

/// Why a transaction is not valid against an unspent-output set.
#[derive(Debug, PartialEq, Eq, Structural, Clone, Copy)]
pub enum TransactionValidityError {
    /// The outputs exceed the inputs by this amount.
    InvalidOutputAmount(u32),
    /// The signature of the input at this index does not verify.
    InvalidSignature(u32),
    /// The input at this index refers to no unspent output.
    InputDoesNotExist(u32),
    /// The fee, or the excess of outputs over inputs, does not fit a `u32`.
    AmountTooLarge,
}

/// The unspent-output key that an input refers to.
pub open spec fn input_key(i: InputView) -> UtxoKey {
    (i.tx_id, i.output_id)
}

/// What is wrong with input `i` of `t` against `u`, if anything.
pub open spec fn input_error(t: TransactionView, u: Map<UtxoKey, OutputView>, i: int) -> Option<
    TransactionValidityError,
> {
    let inp = t.inputs[i];
    if !u.contains_key(input_key(inp)) {
        Some(TransactionValidityError::InputDoesNotExist(i as u32))
    } else if !input_signed_by(inp, u[input_key(inp)].to_pubkey) {
        Some(TransactionValidityError::InvalidSignature(i as u32))
    } else {
        None
    }
}

/// The error of the first bad input among the first `n`.
pub open spec fn first_input_error(t: TransactionView, u: Map<UtxoKey, OutputView>, n: nat) -> Option<
    TransactionValidityError,
>
    decreases n,
{
    if n == 0 {
        None
    } else {
        match first_input_error(t, u, (n - 1) as nat) {
            Some(e) => Some(e),
            None => input_error(t, u, n - 1),
        }
    }
}

/// The sum of the amounts that the first `n` inputs refer to.
pub open spec fn input_total(t: TransactionView, u: Map<UtxoKey, OutputView>, n: nat) -> int
    decreases n,
{
    if n == 0 {
        0
    } else {
        input_total(t, u, (n - 1) as nat) + u[input_key(t.inputs[n - 1])].amount
    }
}

/// The sum of the amounts of the first `n` outputs.
pub open spec fn output_total(outs: Seq<OutputView>, n: nat) -> int
    decreases n,
{
    if n == 0 {
        0
    } else {
        output_total(outs, (n - 1) as nat) + outs[n - 1].amount
    }
}

/// Validity of `t` against `u`: the first bad input's error; else the fee,
/// inputs minus outputs; else the excess of outputs over inputs. Both are
/// exact differences of the sums; one that does not fit a `u32` is
/// `AmountTooLarge`, so it never counts as a fee or as a claim.
pub open spec fn validate(t: TransactionView, u: Map<UtxoKey, OutputView>) -> Result<
    u32,
    TransactionValidityError,
> {
    match first_input_error(t, u, t.inputs.len()) {
        Some(e) => Err(e),
        None => {
            let total_in = input_total(t, u, t.inputs.len());
            let total_out = output_total(t.outputs, t.outputs.len());
            if total_out <= total_in {
                if total_in - total_out <= u32::MAX {
                    Ok((total_in - total_out) as u32)
                } else {
                    Err(TransactionValidityError::AmountTooLarge)
                }
            } else if total_out - total_in <= u32::MAX {
                Err(TransactionValidityError::InvalidOutputAmount((total_out - total_in) as u32))
            } else {
                Err(TransactionValidityError::AmountTooLarge)
            }
        },
    }
}

/// A transaction whose input and output indices fit in a `u32`.
pub open spec fn tx_wf(t: TransactionView) -> bool {
    t.inputs.len() <= u32::MAX && t.outputs.len() <= u32::MAX
}

/// Once an input has failed, later inputs do not change the error.
pub proof fn lemma_first_error_stable(t: TransactionView, u: Map<UtxoKey, OutputView>, n: nat, m: nat)
    requires
        n <= m,
        first_input_error(t, u, n) is Some,
    ensures
        first_input_error(t, u, m) == first_input_error(t, u, n),
    decreases m - n,
{
    if n < m {
        lemma_first_error_stable(t, u, n, (m - 1) as nat);
    }
}

pub proof fn lemma_output_total_bound(outs: Seq<OutputView>, n: nat)
    requires
        n <= outs.len(),
    ensures
        0 <= output_total(outs, n) <= n * (u32::MAX as int),
    decreases n,
{
    if n > 0 {
        lemma_output_total_bound(outs, (n - 1) as nat);
    }
}

pub proof fn lemma_input_total_bound(t: TransactionView, u: Map<UtxoKey, OutputView>, n: nat)
    ensures
        0 <= input_total(t, u, n) <= n * (u32::MAX as int),
    decreases n,
{
    if n > 0 {
        lemma_input_total_bound(t, u, (n - 1) as nat);
    }
}

impl Transaction {
    /// An empty transaction stamped with the current time.
    pub fn new() -> (r: Self)
        ensures
            r@.inputs.len() == 0,
            r@.outputs.len() == 0,
    {
        Transaction { time_stamp: crate::crypto::now_secs(), inputs: Vec::new(), outputs: Vec::new() }
    }

    /// An empty transaction with the given timestamp.
    pub fn with_time_stamp(time_stamp: u64) -> (r: Self)
        ensures
            r@.time_stamp == time_stamp,
            r@.inputs.len() == 0,
            r@.outputs.len() == 0,
    {
        Transaction { time_stamp, inputs: Vec::new(), outputs: Vec::new() }
    }

    pub fn add_input(&mut self, input: Input)
        ensures
            final(self)@.time_stamp == old(self)@.time_stamp,
            final(self)@.inputs == old(self)@.inputs.push(input@),
            final(self)@.outputs == old(self)@.outputs,
    {
        self.inputs.push(input);
        assert(self@.inputs =~= old(self)@.inputs.push(input@));
    }

    pub fn add_output(&mut self, output: Output)
        ensures
            final(self)@.time_stamp == old(self)@.time_stamp,
            final(self)@.inputs == old(self)@.inputs,
            final(self)@.outputs == old(self)@.outputs.push(output@),
    {
        self.outputs.push(output);
        assert(self@.outputs =~= old(self)@.outputs.push(output@));
    }

    /// A copy of the transaction.
    pub fn duplicate(&self) -> (r: Transaction)
        ensures
            r@ == self@,
    {
        let mut inputs: Vec<Input> = Vec::new();
        let mut i: usize = 0;
        while i < self.inputs.len()
            invariant
                i <= self.inputs@.len(),
                inputs@.len() == i,
                forall|k: int| 0 <= k < i ==> (#[trigger] inputs@[k])@ == self.inputs@[k]@,
            decreases self.inputs@.len() - i,
        {
            let src = &self.inputs[i];
            let mut sig: Vec<u8> = Vec::new();
            crate::bytes::push_bytes(&mut sig, src.signature.as_slice());
            assert(sig@ =~= src.signature@);
            inputs.push(Input { core: src.core, signature: sig });
            i = i + 1;
        }
        let mut outputs: Vec<Output> = Vec::new();
        let mut i: usize = 0;
        while i < self.outputs.len()
            invariant
                i <= self.outputs@.len(),
                outputs@.len() == i,
                forall|k: int| 0 <= k < i ==> (#[trigger] outputs@[k])@ == self.outputs@[k]@,
            decreases self.outputs@.len() - i,
        {
            outputs.push(self.outputs[i].duplicate());
            i = i + 1;
        }
        let r = Transaction { time_stamp: self.time_stamp, inputs, outputs };
        assert(r@.inputs =~= self@.inputs);
        assert(r@.outputs =~= self@.outputs);
        r
    }

    /// Restamps the transaction with the current time.
    pub fn update_time(&mut self)
        ensures
            final(self)@.inputs == old(self)@.inputs,
            final(self)@.outputs == old(self)@.outputs,
    {
        self.time_stamp = crate::crypto::now_secs();
    }

    /// The id: the digest of the encoding.
    pub fn calculate_id(&self) -> (r: Sha256Hash)
        ensures
            r@ == tx_id(self@),
    {
        let bytes = crate::codec::serialize_tx(self);
        crate::crypto::sha256(&bytes)
    }

    /// Checks the transaction against `utxo_set` and returns its fee.
    pub fn is_valid(&self, utxo_set: &UTXOSet) -> (r: Result<u32, TransactionValidityError>)
        requires
            utxo_set.wf(),
            tx_wf(self@),
        ensures
            r == validate(self@, utxo_set@),
    {
        let ghost t = self@;
        let ghost u = utxo_set@;
        let mut total_output: u64 = 0;
        let mut k: usize = 0;
        while k < self.outputs.len()
            invariant
                t == self@,
                tx_wf(t),
                k <= self.outputs@.len(),
                total_output == output_total(t.outputs, k as nat),
            decreases self.outputs@.len() - k,
        {
            proof {
                lemma_output_total_bound(t.outputs, k as nat);
                assert(k * (u32::MAX as int) <= (u32::MAX as int) * (u32::MAX as int)) by (nonlinear_arith)
                    requires k <= u32::MAX;
            }
            total_output = total_output + self.outputs[k].amount as u64;
            k = k + 1;
        }
        let mut total_input: u64 = 0;
        let mut i: usize = 0;
        while i < self.inputs.len()
            invariant
                t == self@,
                u == utxo_set@,
                utxo_set.wf(),
                tx_wf(t),
                i <= self.inputs@.len(),
                first_input_error(t, u, i as nat) is None,
                total_input == input_total(t, u, i as nat),
                total_output == output_total(t.outputs, t.outputs.len()),
            decreases self.inputs@.len() - i,
        {
            let input = &self.inputs[i];
            assert(input@ == t.inputs[i as int]);
            let utxo = match utxo_set.get(&input.core.tx_id, input.core.output_id) {
                Some(o) => o,
                None => {
                    proof {
                        assert(first_input_error(t, u, (i + 1) as nat) is Some);
                        lemma_first_error_stable(t, u, (i + 1) as nat, t.inputs.len());
                    }
                    return Err(TransactionValidityError::InputDoesNotExist(i as u32));
                },
            };
            if !input.verify(&utxo.to_pubkey) {
                proof {
                    assert(first_input_error(t, u, (i + 1) as nat) is Some);
                    lemma_first_error_stable(t, u, (i + 1) as nat, t.inputs.len());
                }
                return Err(TransactionValidityError::InvalidSignature(i as u32));
            }
            proof {
                lemma_input_total_bound(t, u, i as nat);
                assert(i * (u32::MAX as int) <= (u32::MAX as int) * (u32::MAX as int)) by (nonlinear_arith)
                    requires i <= u32::MAX;
            }
            total_input = total_input + utxo.amount as u64;
            i = i + 1;
        }
        if total_output <= total_input {
            let fee = total_input - total_output;
            if fee <= u32::MAX as u64 {
                Ok(fee as u32)
            } else {
                Err(TransactionValidityError::AmountTooLarge)
            }
        } else {
            let excess = total_output - total_input;
            if excess <= u32::MAX as u64 {
                Err(TransactionValidityError::InvalidOutputAmount(excess as u32))
            } else {
                Err(TransactionValidityError::AmountTooLarge)
            }
        }
    }
}

/// A transaction's id: the digest of its encoding.
pub open spec fn tx_id(t: TransactionView) -> Seq<u8> {
    sha256_of(ser_tx(t))
}

} // verus!
