//! The script interpreter and the Pay-to-Dilithium (P2DL) spend check.
use vstd::prelude::*;
use crate::consensus::transaction::{Transaction, TxOutput};
use crate::primitives::bytes::{bytes_equal, le_bytes, le_value, read_le};
use crate::primitives::hash::{
    blake3_digest, blake3_hash, hash160, ripemd160_digest, sha256_digest,
};
use crate::script::sighash::{compute_sighash, spec_sighash};

verus! {

pub const MAX_STACK_SIZE: usize = 1000;

pub const MAX_SCRIPT_SIZE: usize = 10_000;

/// Length of a Dilithium signature in a P2DL spend.
pub const DILITHIUM_SIG_LEN: usize = 3309;

/// Length of a Dilithium public key in a P2DL spend.
pub const DILITHIUM_PUBKEY_LEN: usize = 1952;

/// The transaction and input a script runs for.
pub struct ScriptContext<'a> {
    pub transaction: &'a Transaction,
    pub input_index: usize,
    pub spent_outputs: &'a [TxOutput],
}

#[derive(Debug, Clone, Copy, PartialEq, Eq)]
pub enum ScriptError {
    StackUnderflow,
    StackOverflow,
    ScriptTooLarge,
    InvalidOpcode,
    VerifyFailed,
    EqualVerifyFailed,
    InvalidPushSize,
    InvalidSignature,
    InvalidPubkey,
    ExecutionFailed,
    InvalidWitness,
    UnexpectedEof,
}

/// A Dilithium signature check: whether `signature` is a valid signature of
/// `message` under `pubkey`. The interpreter and the P2DL check take it as a
/// parameter. Its answer is a function of its three arguments, named by
/// `accepts`; nothing else is assumed of it.
pub trait SignatureCheck {
    /// Whether the check accepts `signature` of `message` under `pubkey`.
    spec fn accepts(&self, pubkey: Seq<u8>, message: Seq<u8>, signature: Seq<u8>) -> bool;

    fn verify(&self, pubkey: &[u8], message: &[u8], signature: &[u8]) -> (r: bool)
        ensures
            r == self.accepts(pubkey@, message@, signature@),
    ;
}

/// What reading one `OP_PUSHDATA2` blob at `pc` gives: the data and the
/// position after it.
pub open spec fn spec_parse_pushdata2(s: Seq<u8>, pc: int) -> Result<(Seq<u8>, int), ScriptError> {
    if pc < 0 || pc >= s.len() || s[pc] != 0x4d {
        Err(ScriptError::InvalidPushSize)
    } else if pc + 3 > s.len() {
        Err(ScriptError::UnexpectedEof)
    } else {
        let len = s[pc + 1] as int + 256 * s[pc + 2] as int;
        if pc + 3 + len > s.len() {
            Err(ScriptError::InvalidPushSize)
        } else {
            Ok((s.subrange(pc + 3, pc + 3 + len), pc + 3 + len))
        }
    }
}

/// A blob pushed with `OP_PUSHDATA2` (the opcode, its length in two
/// little-endian bytes, then the data) after any prefix `s` and before any
/// rest reads back as the data, with the position just after it.
pub proof fn lemma_pushdata2_roundtrip(s: Seq<u8>, data: Seq<u8>, rest: Seq<u8>)
    requires
        data.len() <= 0xFFFF,
    ensures
        spec_parse_pushdata2(
            s + seq![0x4du8] + le_bytes(data.len(), 2) + data + rest,
            s.len() as int,
        ) == Ok::<(Seq<u8>, int), ScriptError>((data, (s.len() + 3 + data.len()) as int)),
{
    let n = data.len();
    let buf = s + seq![0x4du8] + le_bytes(n, 2) + data + rest;
    let p = s.len() as int;
    reveal_with_fuel(le_bytes, 3);
    let lb = le_bytes(n, 2);
    assert(lb =~= seq![(n % 256) as u8, ((n / 256) % 256) as u8]);
    assert(buf[p] == 0x4d);
    assert(buf[p + 1] == (n % 256) as u8);
    assert(buf[p + 2] == ((n / 256) % 256) as u8);
    assert(buf[p + 1] as int + 256 * buf[p + 2] as int == n);
    assert(buf.subrange(p + 3, p + 3 + n) =~= data);
}

/// Decode one OP_PUSHDATA2-prefixed blob from `script_sig` at byte offset `pc`.
/// Returns `(data_slice, new_pc)` on success.
pub fn parse_pushdata2(script_sig: &[u8], pc: usize) -> (r: Result<(&[u8], usize), ScriptError>)
    ensures
        match r {
            Ok((d, n)) => spec_parse_pushdata2(script_sig@, pc as int) == Ok::<
                (Seq<u8>, int),
                ScriptError,
            >((d@, n as int)),
            Err(e) => spec_parse_pushdata2(script_sig@, pc as int) == Err::<
                (Seq<u8>, int),
                ScriptError,
            >(e),
        },
{
    if pc >= script_sig.len() || script_sig[pc] != 0x4d {
        return Err(ScriptError::InvalidPushSize);
    }
    let pc = pc + 1;
    if script_sig.len() - pc < 2 {
        return Err(ScriptError::UnexpectedEof);
    }
    let len = script_sig[pc] as usize + 256 * (script_sig[pc + 1] as usize);
    let pc = pc + 2;
    if len > script_sig.len() - pc {
        return Err(ScriptError::InvalidPushSize);
    }
    Ok((&script_sig[pc..pc + len], pc + len))
}

/// The P2DL locking script: `OP_HASH256 push32 <hash> OP_EQUALVERIFY OP_CHECKSIG`.
pub open spec fn is_p2dl_script(s: Seq<u8>) -> bool {
    s.len() == 36 && s[0] == 0xaa && s[1] == 0x20 && s[34] == 0x88 && s[35] == 0xac
}

pub fn is_p2dl(script: &[u8]) -> (r: bool)
    ensures
        r == is_p2dl_script(script@),
{
    script.len() == 36 && script[0] == 0xaa && script[1] == 0x20 && script[34] == 0x88
        && script[35] == 0xac
}

/// What the P2DL check decides before the signature itself is checked:
/// `Ok(None)` when the locking script is not P2DL or the key does not hash
/// to it (the spend is refused), `Err` for a malformed unlocking script,
/// `Ok(Some((signature, pubkey)))` when the signature check decides.
pub open spec fn spec_p2dl_precheck(script_sig: Seq<u8>, script_pubkey: Seq<u8>) -> Result<
    Option<(Seq<u8>, Seq<u8>)>,
    ScriptError,
> {
    if !is_p2dl_script(script_pubkey) {
        Ok(None)
    } else {
        match spec_parse_pushdata2(script_sig, 0) {
            Err(e) => Err(e),
            Ok((sig, pc)) => match spec_parse_pushdata2(script_sig, pc) {
                Err(e) => Err(e),
                Ok((pk, _)) => if sig.len() != DILITHIUM_SIG_LEN {
                    Err(ScriptError::InvalidSignature)
                } else if pk.len() != DILITHIUM_PUBKEY_LEN {
                    Err(ScriptError::InvalidPubkey)
                } else if blake3_digest(pk) != script_pubkey.subrange(2, 34) {
                    Ok(None)
                } else {
                    Ok(Some((sig, pk)))
                },
            },
        }
    }
}

/// Checks a P2DL spend of a message hash: the locking script must be P2DL,
/// the unlocking script two `OP_PUSHDATA2` pushes (a 3309-byte signature,
/// then a 1952-byte key) and the key's BLAKE3 hash the one locked to; then
/// the answer is whether `checker` accepts the signature of `sighash` under
/// the key.
///
/// scriptPubKey: `OP_HASH256(0xaa) push32(0x20) <32-byte BLAKE3 hash> OP_EQUALVERIFY(0x88) OP_CHECKSIG(0xac)`
/// scriptSig: `OP_PUSHDATA2 <2-byte-len-LE> <3309-byte sig> OP_PUSHDATA2 <2-byte-len-LE> <1952-byte pubkey>`
pub fn verify_p2dl_signature<C: SignatureCheck>(
    script_sig: &[u8],
    script_pubkey: &[u8],
    sighash: &[u8],
    checker: &C,
) -> (r: Result<bool, ScriptError>)
    ensures
        match spec_p2dl_precheck(script_sig@, script_pubkey@) {
            Err(e) => r == Err::<bool, ScriptError>(e),
            Ok(None) => r == Ok::<bool, ScriptError>(false),
            Ok(Some((sig, pk))) => r == Ok::<bool, ScriptError>(checker.accepts(pk, sighash@, sig)),
        },
{
    if !is_p2dl(script_pubkey) {
        return Ok(false);
    }
    let (sig_bytes, pc) = parse_pushdata2(script_sig, 0)?;
    let (pubkey_bytes, _) = parse_pushdata2(script_sig, pc)?;
    if sig_bytes.len() != DILITHIUM_SIG_LEN {
        return Err(ScriptError::InvalidSignature);
    }
    if pubkey_bytes.len() != DILITHIUM_PUBKEY_LEN {
        return Err(ScriptError::InvalidPubkey);
    }
    let computed_hash = blake3_hash(pubkey_bytes);
    let script_hash = &script_pubkey[2..34];
    if !bytes_equal(&computed_hash, script_hash) {
        return Ok(false);
    }
    Ok(checker.verify(pubkey_bytes, sighash, sig_bytes))
}

/// Validate a P2DL (Pay-to-Dilithium) input: the signature hash of the
/// context's input must be computable (else `ExecutionFailed`), then
/// [`verify_p2dl_signature`] decides.
pub fn validate_p2dl<C: SignatureCheck>(
    script_sig: &[u8],
    script_pubkey: &[u8],
    context: &ScriptContext,
    checker: &C,
) -> (r: Result<bool, ScriptError>)
    ensures
        spec_sighash(*context.transaction, context.input_index as nat, context.spent_outputs@) is None
            ==> r == Err::<bool, ScriptError>(ScriptError::ExecutionFailed),
        spec_sighash(*context.transaction, context.input_index as nat, context.spent_outputs@) is Some
            ==> match spec_p2dl_precheck(script_sig@, script_pubkey@) {
            Err(e) => r == Err::<bool, ScriptError>(e),
            Ok(None) => r == Ok::<bool, ScriptError>(false),
            Ok(Some((sig, pk))) => r == Ok::<bool, ScriptError>(
                checker.accepts(
                    pk,
                    spec_sighash(*context.transaction, context.input_index as nat, context.spent_outputs@)->Some_0,
                    sig,
                ),
            ),
        },
{
    let sighash = match compute_sighash(
        context.transaction,
        context.input_index,
        context.spent_outputs,
    ) {
        Ok(h) => h,
        Err(_) => {
            return Err(ScriptError::ExecutionFailed);
        },
    };
    verify_p2dl_signature(script_sig, script_pubkey, &sighash, checker)
}

/// An item counts as true when some byte of it is not zero.
pub open spec fn spec_is_true(item: Seq<u8>) -> bool {
    exists|i: int| 0 <= i < item.len() && item[i] != 0
}

pub fn is_true(item: &[u8]) -> (r: bool)
    ensures
        r == spec_is_true(item@),
{
    if item.len() == 0 {
        return false;
    }
    let mut i: usize = 0;
    while i < item.len()
        invariant
            i <= item@.len(),
            forall|k: int| 0 <= k < i ==> item@[k] == 0,
        decreases item@.len() - i,
    {
        if item[i] != 0 {
            return true;
        }
        i = i + 1;
    }
    false
}


/// The value of each stack item.
pub open spec fn stack_view(s: Seq<Vec<u8>>) -> Seq<Seq<u8>> {
    s.map_values(|v: Vec<u8>| v@)
}

/// `[1]` for true, the empty item for false.
pub open spec fn bool_item(b: bool) -> Seq<u8> {
    if b {
        seq![1u8]
    } else {
        Seq::empty()
    }
}

/// Whether `n` bytes starting at `from` lie within the script.
pub open spec fn push_fits(script: Seq<u8>, from: int, n: int) -> bool {
    0 <= from && 0 <= n && from + n <= script.len()
}

/// The result of running `script` from position `pc` with stack `st`, when
/// the signature hash of the input is `sighash` (`None` when it cannot be
/// computed) and signatures are checked by `checker`: a signature check
/// pops the key, then the signature, and asks whether the signature of the
/// signature hash under the key is accepted.
pub open spec fn run_script<C: SignatureCheck>(
    script: Seq<u8>,
    pc: int,
    st: Seq<Seq<u8>>,
    sighash: Option<Seq<u8>>,
    checker: &C,
) -> Result<Seq<Seq<u8>>, ScriptError>
    decreases script.len() - pc,
{
    if pc < 0 || pc >= script.len() {
        if st.len() > MAX_STACK_SIZE {
            Err(ScriptError::StackOverflow)
        } else {
            Ok(st)
        }
    } else if st.len() > MAX_STACK_SIZE {
        Err(ScriptError::StackOverflow)
    } else {
        let op = script[pc];
        let p = pc + 1;
        let n = st.len();
        if op <= 0x4b || op == 0x4c || op == 0x4d || op == 0x4e {
            let w: int = if op <= 0x4b {
                0
            } else if op == 0x4c {
                1
            } else if op == 0x4d {
                2
            } else {
                4
            };
            if p + w > script.len() {
                Err(ScriptError::UnexpectedEof)
            } else {
                let from = p + w;
                let len: int = if op <= 0x4b {
                    op as int
                } else {
                    le_value(script.subrange(p, p + w)) as int
                };
                if !push_fits(script, from, len) {
                    Err(ScriptError::InvalidPushSize)
                } else {
                    run_script(
                        script,
                        from + len,
                        st.push(script.subrange(from, from + len)),
                        sighash, checker,
                    )
                }
            }
        } else if op == 0x4f {
            run_script(script, p, st.push(seq![0x81u8]), sighash, checker)
        } else if 0x51 <= op <= 0x60 {
            run_script(script, p, st.push(seq![(op - 0x50) as u8]), sighash, checker)
        } else if op == 0x76 {
            if n == 0 {
                Err(ScriptError::StackUnderflow)
            } else {
                run_script(script, p, st.push(st.last()), sighash, checker)
            }
        } else if op == 0x75 {
            if n == 0 {
                Err(ScriptError::StackUnderflow)
            } else {
                run_script(script, p, st.drop_last(), sighash, checker)
            }
        } else if op == 0xa9 {
            if n == 0 {
                Err(ScriptError::StackUnderflow)
            } else {
                run_script(
                    script,
                    p,
                    st.drop_last().push(ripemd160_digest(sha256_digest(st.last()))),
                    sighash, checker,
                )
            }
        } else if op == 0xaa {
            if n == 0 {
                Err(ScriptError::StackUnderflow)
            } else {
                run_script(
                    script,
                    p,
                    st.drop_last().push(blake3_digest(st.last())),
                    sighash, checker,
                )
            }
        } else if op == 0x87 {
            if n < 2 {
                Err(ScriptError::StackUnderflow)
            } else {
                run_script(
                    script,
                    p,
                    st.drop_last().drop_last().push(bool_item(st[n - 1] == st[n - 2])),
                    sighash, checker,
                )
            }
        } else if op == 0x88 {
            if n < 2 {
                Err(ScriptError::StackUnderflow)
            } else if st[n - 1] != st[n - 2] {
                Err(ScriptError::EqualVerifyFailed)
            } else {
                run_script(script, p, st.drop_last().drop_last(), sighash, checker)
            }
        } else if op == 0x69 {
            if n == 0 {
                Err(ScriptError::StackUnderflow)
            } else if !spec_is_true(st.last()) {
                Err(ScriptError::VerifyFailed)
            } else {
                run_script(script, p, st.drop_last(), sighash, checker)
            }
        } else if op == 0xac {
            if n < 2 {
                Err(ScriptError::StackUnderflow)
            } else if sighash is None {
                Err(ScriptError::ExecutionFailed)
            } else {
                run_script(
                    script,
                    p,
                    st.drop_last().drop_last().push(bool_item(checker.accepts(st[n - 1], sighash.unwrap(), st[n - 2]))),
                    sighash, checker,
                )
            }
        } else if op == 0xad {
            if n < 2 {
                Err(ScriptError::StackUnderflow)
            } else if sighash is None {
                Err(ScriptError::ExecutionFailed)
            } else if !checker.accepts(st[n - 1], sighash.unwrap(), st[n - 2]) {
                Err(ScriptError::VerifyFailed)
            } else {
                run_script(script, p, st.drop_last().drop_last(), sighash, checker)
            }
        } else if op == 0x6a {
            Err(ScriptError::ExecutionFailed)
        } else {
            Err(ScriptError::InvalidOpcode)
        }
    }
}

/// The stack a run ends with, by value.
pub open spec fn result_view(r: Result<Vec<Vec<u8>>, ScriptError>) -> Result<
    Seq<Seq<u8>>,
    ScriptError,
> {
    match r {
        Ok(st) => Ok(stack_view(st@)),
        Err(e) => Err(e),
    }
}

fn push_slice(stack: &mut Vec<Vec<u8>>, script: &[u8], from: usize, n: usize)
    requires
        from + n <= script.len(),
    ensures
        stack_view(final(stack)@) == stack_view(old(stack)@).push(
            script@.subrange(from as int, from + n),
        ),
{
    let item = vstd::slice::slice_to_vec(&script[from..from + n]);
    stack.push(item);
    proof {
        assert(stack_view(stack@) =~= stack_view(old(stack)@).push(
            script@.subrange(from as int, from + n),
        ));
    }
}

fn push_item(stack: &mut Vec<Vec<u8>>, item: Vec<u8>)
    ensures
        stack_view(final(stack)@) == stack_view(old(stack)@).push(item@),
{
    stack.push(item);
    proof {
        assert(stack_view(stack@) =~= stack_view(old(stack)@).push(item@));
    }
}

fn pop_item(stack: &mut Vec<Vec<u8>>) -> (item: Vec<u8>)
    requires
        old(stack)@.len() > 0,
    ensures
        item@ == stack_view(old(stack)@).last(),
        stack_view(final(stack)@) == stack_view(old(stack)@).drop_last(),
        final(stack)@.len() == old(stack)@.len() - 1,
{
    let item = stack.pop().unwrap();
    proof {
        assert(stack_view(stack@) =~= stack_view(old(stack)@).drop_last());
    }
    item
}

/// Runs `script` on `initial_stack`: refuses scripts over 10 000 bytes, and
/// otherwise gives the result of [`run_script`] from position 0, with the
/// input's signature hash and `checker`'s answers.
pub fn execute_script<C: SignatureCheck>(
    script: &[u8],
    initial_stack: Vec<Vec<u8>>,
    context: &ScriptContext,
    checker: &C,
) -> (r: Result<Vec<Vec<u8>>, ScriptError>)
    ensures
        script@.len() > MAX_SCRIPT_SIZE ==> r == Err::<Vec<Vec<u8>>, ScriptError>(
            ScriptError::ScriptTooLarge,
        ),
        script@.len() <= MAX_SCRIPT_SIZE ==> result_view(r) == run_script(
            script@,
            0,
            stack_view(initial_stack@),
            spec_sighash(*context.transaction, context.input_index as nat, context.spent_outputs@),
            checker,
        ),
{
    if script.len() > MAX_SCRIPT_SIZE {
        return Err(ScriptError::ScriptTooLarge);
    }
    let ghost sh = spec_sighash(
        *context.transaction,
        context.input_index as nat,
        context.spent_outputs@,
    );
    let ghost init = stack_view(initial_stack@);
    let ghost s = script@;
    let mut stack = initial_stack;
    let mut pc: usize = 0;
    while pc < script.len()
        invariant
            pc <= script@.len() <= MAX_SCRIPT_SIZE,
            s == script@,
            init == stack_view(initial_stack@),
            sh == spec_sighash(
                *context.transaction,
                context.input_index as nat,
                context.spent_outputs@,
            ),
            run_script(s, 0, init, sh, checker) == run_script(s, pc as int, stack_view(stack@), sh, checker),
        decreases script@.len() - pc,
    {
        let ghost pc0 = pc as int;
        let ghost sv0 = stack_view(stack@);
        if stack.len() > MAX_STACK_SIZE {
            return Err(ScriptError::StackOverflow);
        }
        let op_byte = script[pc];
        pc = pc + 1;
        if op_byte <= 0x4b {
            let len = op_byte as usize;
            if len > script.len() - pc {
                return Err(ScriptError::InvalidPushSize);
            }
            push_slice(&mut stack, script, pc, len);
            pc = pc + len;
        } else if op_byte == 0x4c {
            if pc >= script.len() {
                return Err(ScriptError::UnexpectedEof);
            }
            let len = script[pc] as usize;
            proof {
                assert(script@.subrange(pc as int, pc + 1) =~= seq![script@[pc as int]]);
                crate::primitives::bytes::lemma_le_value_single(script@[pc as int]);
            }
            pc = pc + 1;
            if len > script.len() - pc {
                return Err(ScriptError::InvalidPushSize);
            }
            push_slice(&mut stack, script, pc, len);
            pc = pc + len;
        } else if op_byte == 0x4d {
            if script.len() - pc < 2 {
                return Err(ScriptError::UnexpectedEof);
            }
            let len64 = read_le(script, pc, 2);
            proof {
                crate::primitives::bytes::lemma_le_value_bound(script@.subrange(pc as int, pc + 2));
                reveal_with_fuel(crate::primitives::bytes::pow256, 3);
            }
            let len = len64 as usize;
            pc = pc + 2;
            if len > script.len() - pc {
                return Err(ScriptError::InvalidPushSize);
            }
            push_slice(&mut stack, script, pc, len);
            pc = pc + len;
        } else if op_byte == 0x4e {
            if script.len() - pc < 4 {
                return Err(ScriptError::UnexpectedEof);
            }
            let len64 = read_le(script, pc, 4);
            proof {
                crate::primitives::bytes::lemma_le_value_bound(script@.subrange(pc as int, pc + 4));
                reveal_with_fuel(crate::primitives::bytes::pow256, 5);
            }
            pc = pc + 4;
            if len64 > (script.len() - pc) as u64 {
                return Err(ScriptError::InvalidPushSize);
            }
            let len = len64 as usize;
            push_slice(&mut stack, script, pc, len);
            pc = pc + len;
        } else if op_byte == 0x4f {
            let item = vec![0x81u8];
            proof {
                assert(item@ =~= seq![0x81u8]);
            }
            push_item(&mut stack, item);
        } else if 0x51 <= op_byte && op_byte <= 0x60 {
            let item = vec![op_byte - 0x50];
            proof {
                assert(item@ =~= seq![(op_byte - 0x50) as u8]);
            }
            push_item(&mut stack, item);
        } else if op_byte == 0x76 {
            if stack.len() == 0 {
                return Err(ScriptError::StackUnderflow);
            }
            let top = stack[stack.len() - 1].clone();
            proof {
                assert(top@ =~= stack@[stack@.len() - 1]@);
                assert(sv0.last() == stack@[stack@.len() - 1]@);
            }
            push_item(&mut stack, top);
        } else if op_byte == 0x75 {
            if stack.len() == 0 {
                return Err(ScriptError::StackUnderflow);
            }
            let _ = pop_item(&mut stack);
        } else if op_byte == 0xa9 {
            if stack.len() == 0 {
                return Err(ScriptError::StackUnderflow);
            }
            let item = pop_item(&mut stack);
            let h = hash160(item.as_slice());
            push_item(&mut stack, vstd::slice::slice_to_vec(&h));
        } else if op_byte == 0xaa {
            if stack.len() == 0 {
                return Err(ScriptError::StackUnderflow);
            }
            let item = pop_item(&mut stack);
            let h = blake3_hash(item.as_slice());
            push_item(&mut stack, vstd::slice::slice_to_vec(&h));
        } else if op_byte == 0x87 {
            if stack.len() < 2 {
                return Err(ScriptError::StackUnderflow);
            }
            let item1 = pop_item(&mut stack);
            let item2 = pop_item(&mut stack);
            let eq = bytes_equal(item1.as_slice(), item2.as_slice());
            let item = if eq {
                vec![1u8]
            } else {
                Vec::new()
            };
            proof {
                assert(item@ =~= bool_item(eq));
                let n = sv0.len();
                assert(item1@ == sv0[n - 1]);
                assert(item2@ == sv0[n - 2]);
                assert(sv0.drop_last().last() == sv0[n - 2]);
            }
            push_item(&mut stack, item);
        } else if op_byte == 0x88 {
            if stack.len() < 2 {
                return Err(ScriptError::StackUnderflow);
            }
            let item1 = pop_item(&mut stack);
            let item2 = pop_item(&mut stack);
            if !bytes_equal(item1.as_slice(), item2.as_slice()) {
                return Err(ScriptError::EqualVerifyFailed);
            }
        } else if op_byte == 0x69 {
            if stack.len() == 0 {
                return Err(ScriptError::StackUnderflow);
            }
            let item = pop_item(&mut stack);
            if !is_true(item.as_slice()) {
                return Err(ScriptError::VerifyFailed);
            }
        } else if op_byte == 0xac || op_byte == 0xad {
            if stack.len() < 2 {
                return Err(ScriptError::StackUnderflow);
            }
            let pubkey = pop_item(&mut stack);
            let signature = pop_item(&mut stack);
            let sighash = match compute_sighash(
                context.transaction,
                context.input_index,
                context.spent_outputs,
            ) {
                Ok(h) => h,
                Err(_) => {
                    return Err(ScriptError::ExecutionFailed);
                },
            };
            let ok = checker.verify(pubkey.as_slice(), &sighash, signature.as_slice());
            proof {
                let n = sv0.len();
                assert(pubkey@ == sv0[n - 1]);
                assert(signature@ == sv0.drop_last().last());
                assert(sv0.drop_last().last() == sv0[n - 2]);
                assert(sh == Some(sighash@));
            }
            if op_byte == 0xac {
                let item = if ok {
                    vec![1u8]
                } else {
                    Vec::new()
                };
                proof {
                    assert(item@ =~= bool_item(ok));
                }
                push_item(&mut stack, item);
            } else if !ok {
                return Err(ScriptError::VerifyFailed);
            }
        } else if op_byte == 0x6a {
            return Err(ScriptError::ExecutionFailed);
        } else {
            return Err(ScriptError::InvalidOpcode);
        }
        proof {
            {
                let lhs = run_script(s, pc0, sv0, sh, checker);
                let rhs = run_script(s, pc as int, stack_view(stack@), sh, checker);
                if op_byte <= 0x4b {
                    assert(lhs == rhs);
                } else if op_byte == 0x4c {
                    assert(lhs == rhs);
                } else if op_byte == 0x4d {
                    assert(lhs == rhs);
                } else if op_byte == 0x4e {
                    assert(lhs == rhs);
                } else if op_byte == 0x4f {
                    assert(lhs == rhs);
                } else if 0x51 <= op_byte <= 0x60 {
                    assert(lhs == rhs);
                } else if op_byte == 0x76 {
                    assert(lhs == rhs);
                } else if op_byte == 0x75 {
                    assert(lhs == rhs);
                } else if op_byte == 0xa9 {
                    assert(lhs == rhs);
                } else if op_byte == 0xaa {
                    assert(lhs == rhs);
                } else if op_byte == 0x87 {
                    assert(lhs == rhs);
                } else if op_byte == 0x88 {
                    assert(lhs == rhs);
                } else if op_byte == 0x69 {
                    assert(lhs == rhs);
                } else {
                    assert(lhs == rhs);
                }
            }
        }
    }
    if stack.len() > MAX_STACK_SIZE {
        return Err(ScriptError::StackOverflow);
    }
    Ok(stack)
}

/// `OP_EQUAL` compares the two top items byte for byte: they are replaced
/// by `[1]` when they are the same byte string and by the empty item when
/// they differ in a byte or in length, and the run goes on after it.
pub proof fn lemma_op_equal_compares_items<C: SignatureCheck>(
    script: Seq<u8>,
    pc: int,
    st: Seq<Seq<u8>>,
    sighash: Option<Seq<u8>>,
    checker: &C,
)
    requires
        0 <= pc < script.len(),
        script[pc] == 0x87,
        2 <= st.len() <= MAX_STACK_SIZE,
    ensures
        run_script(script, pc, st, sighash, checker) == run_script(
            script,
            pc + 1,
            st.subrange(0, st.len() - 2).push(
                if st[st.len() - 2] == st[st.len() - 1] {
                    seq![1u8]
                } else {
                    Seq::<u8>::empty()
                },
            ),
            sighash,
            checker,
        ),
{
    assert(st.drop_last().drop_last() =~= st.subrange(0, st.len() - 2));
}

/// Pushing two small numbers with `OP_1` .. `OP_16` and comparing them with
/// `OP_EQUAL` leaves `[1]` on the stack when the numbers are equal and the
/// empty item when they differ, on any stack with room for them.
pub proof fn lemma_small_numbers_equal<C: SignatureCheck>(
    a: u8,
    b: u8,
    st: Seq<Seq<u8>>,
    sighash: Option<Seq<u8>>,
    checker: &C,
)
    requires
        1 <= a <= 16,
        1 <= b <= 16,
        st.len() + 2 <= MAX_STACK_SIZE,
    ensures
        run_script(seq![(0x50 + a) as u8, (0x50 + b) as u8, 0x87u8], 0, st, sighash, checker) == Ok::<
            Seq<Seq<u8>>,
            ScriptError,
        >(
            st.push(
                if a == b {
                    seq![1u8]
                } else {
                    Seq::<u8>::empty()
                },
            ),
        ),
{
    let script = seq![(0x50 + a) as u8, (0x50 + b) as u8, 0x87u8];
    let s1 = st.push(seq![a]);
    let s2 = s1.push(seq![b]);
    assert(seq![(((0x50 + a) as u8) - 0x50) as u8] == seq![a]);
    assert(seq![(((0x50 + b) as u8) - 0x50) as u8] == seq![b]);
    assert(run_script(script, 0, st, sighash, checker) == run_script(script, 1, s1, sighash, checker));
    assert(run_script(script, 1, s1, sighash, checker) == run_script(script, 2, s2, sighash, checker));
    lemma_op_equal_compares_items(script, 2, s2, sighash, checker);
    assert(s2.subrange(0, s2.len() - 2) =~= st);
    assert(s2[s2.len() - 2] == seq![a] && s2[s2.len() - 1] == seq![b]);
    if a != b {
        assert(seq![a][0] != seq![b][0]);
    }
}

/// What each stack operation does, as one step of a run from position `pc`
/// with the stack `st` (at most `MAX_STACK_SIZE` items, `n` of them, top
/// last): the step's effect on the stack, and the run going on at the next
/// opcode, or the error the step stops with.
pub proof fn lemma_stack_op_steps<C: SignatureCheck>(
    script: Seq<u8>,
    pc: int,
    st: Seq<Seq<u8>>,
    sighash: Option<Seq<u8>>,
    checker: &C,
)
    requires
        0 <= pc < script.len(),
        st.len() <= MAX_STACK_SIZE,
    ensures
        ({
            let op = script[pc];
            let n = st.len() as int;
            let r = run_script(script, pc, st, sighash, checker);
            &&& 0x51 <= op <= 0x60 ==> r == run_script(script, pc + 1, st.push(seq![(op - 0x50) as u8]), sighash, checker)
            &&& op == 0x4f ==> r == run_script(script, pc + 1, st.push(seq![0x81u8]), sighash, checker)
            &&& (op == 0x76 && n == 0) ==> r == Err::<Seq<Seq<u8>>, ScriptError>(ScriptError::StackUnderflow)
            &&& (op == 0x76 && n > 0) ==> r == run_script(script, pc + 1, st.push(st[n - 1]), sighash, checker)
            &&& (op == 0x75 && n == 0) ==> r == Err::<Seq<Seq<u8>>, ScriptError>(ScriptError::StackUnderflow)
            &&& (op == 0x75 && n > 0) ==> r == run_script(script, pc + 1, st.subrange(0, n - 1), sighash, checker)
            &&& (op == 0xa9 && n > 0) ==> r == run_script(
                script,
                pc + 1,
                st.subrange(0, n - 1).push(ripemd160_digest(sha256_digest(st[n - 1]))),
                sighash,
                checker,
            )
            &&& (op == 0xaa && n > 0) ==> r == run_script(
                script,
                pc + 1,
                st.subrange(0, n - 1).push(blake3_digest(st[n - 1])),
                sighash,
                checker,
            )
            &&& ((op == 0xa9 || op == 0xaa) && n == 0) ==> r == Err::<Seq<Seq<u8>>, ScriptError>(
                ScriptError::StackUnderflow,
            )
            &&& ((op == 0x87 || op == 0x88 || op == 0xac || op == 0xad) && n < 2) ==> r == Err::<
                Seq<Seq<u8>>,
                ScriptError,
            >(ScriptError::StackUnderflow)
            &&& (op == 0x88 && n >= 2 && st[n - 2] != st[n - 1]) ==> r == Err::<Seq<Seq<u8>>, ScriptError>(
                ScriptError::EqualVerifyFailed,
            )
            &&& (op == 0x88 && n >= 2 && st[n - 2] == st[n - 1]) ==> r == run_script(
                script,
                pc + 1,
                st.subrange(0, n - 2),
                sighash,
                checker,
            )
            &&& (op == 0x69 && n == 0) ==> r == Err::<Seq<Seq<u8>>, ScriptError>(ScriptError::StackUnderflow)
            &&& (op == 0x69 && n > 0 && forall|k: int| 0 <= k < st[n - 1].len() ==> #[trigger] st[n - 1][k] == 0) ==> r
                == Err::<Seq<Seq<u8>>, ScriptError>(ScriptError::VerifyFailed)
            &&& (op == 0x69 && n > 0 && exists|k: int| 0 <= k < st[n - 1].len() && #[trigger] st[n - 1][k] != 0) ==> r
                == run_script(script, pc + 1, st.subrange(0, n - 1), sighash, checker)
            &&& ((op == 0xac || op == 0xad) && n >= 2 && sighash is None) ==> r == Err::<
                Seq<Seq<u8>>,
                ScriptError,
            >(ScriptError::ExecutionFailed)
            &&& (op == 0xac && n >= 2 && sighash is Some) ==> r == run_script(
                script,
                pc + 1,
                st.subrange(0, n - 2).push(
                    if checker.accepts(st[n - 1], sighash.unwrap(), st[n - 2]) {
                        seq![1u8]
                    } else {
                        Seq::<u8>::empty()
                    },
                ),
                sighash,
                checker,
            )
            &&& (op == 0xad && n >= 2 && sighash is Some && !checker.accepts(st[n - 1], sighash.unwrap(), st[n - 2]))
                ==> r == Err::<Seq<Seq<u8>>, ScriptError>(ScriptError::VerifyFailed)
            &&& (op == 0xad && n >= 2 && sighash is Some && checker.accepts(st[n - 1], sighash.unwrap(), st[n - 2]))
                ==> r == run_script(script, pc + 1, st.subrange(0, n - 2), sighash, checker)
            &&& op == 0x6a ==> r == Err::<Seq<Seq<u8>>, ScriptError>(ScriptError::ExecutionFailed)
            &&& (op <= 0x4b && pc + 1 + op > script.len()) ==> r == Err::<Seq<Seq<u8>>, ScriptError>(
                ScriptError::InvalidPushSize,
            )
            &&& (op <= 0x4b && pc + 1 + op <= script.len()) ==> r == run_script(
                script,
                pc + 1 + op,
                st.push(script.subrange(pc + 1, pc + 1 + op)),
                sighash,
                checker,
            )
        }),
{
    let n = st.len() as int;
    if n >= 1 {
        assert(st.drop_last() =~= st.subrange(0, n - 1));
        assert(st.last() == st[n - 1]);
    }
    if n >= 2 {
        assert(st.drop_last().drop_last() =~= st.subrange(0, n - 2));
    }
}

/// A run that has passed the last opcode ends with its stack, unless the
/// stack holds more than `MAX_STACK_SIZE` items.
pub proof fn lemma_run_ends_with_stack<C: SignatureCheck>(
    script: Seq<u8>,
    st: Seq<Seq<u8>>,
    sighash: Option<Seq<u8>>,
    checker: &C,
)
    ensures
        run_script(script, script.len() as int, st, sighash, checker) == if st.len() > MAX_STACK_SIZE {
            Err::<Seq<Seq<u8>>, ScriptError>(ScriptError::StackOverflow)
        } else {
            Ok(st)
        },
{
}

} // verus!
