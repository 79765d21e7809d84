use vstd::prelude::*;
use crate::encoding::{
    content_hash, content_hash_of, derive_output_key, encodable, output_key_of, signing_hash,
    signing_hash_of, sr25519_verifies, verify_sr25519,
};
use crate::types::{OutputKey, PublicKey, Transaction, TransactionInput, TransactionOutput, Value};
use crate::utxo_set::{keys_equal, UtxoSet};

verus! {

/// Why a transaction was rejected; a rejected transaction changes nothing.
#[derive(Clone, Copy, Debug, PartialEq, Eq, Structural)]
pub enum ValidationError {
    /// The transaction declares no outputs.
    EmptyOutputs,
    /// An input names an output that is not unspent.
    MissingInput,
    /// Two inputs name the same output.
    DuplicateInput,
    /// An input's signature does not verify against the owner of what it spends.
    InvalidSignature,
    /// A value sum, or a length, leaves its numeric range.
    ArithmeticOverflow,
    /// The outputs are worth more than the inputs plus any issuance.
    InsufficientValue,
    /// A derived output key is already in use, or two of them coincide.
    KeyCollision,
    /// The set changed between validation and commit.
    Conflict,
}

/// What the enclosing block tells the engine: its height, its author, and the
/// new value that the issuance policy allows at that height.
///
/// Issuance is credited only to a reward transaction: one with no inputs
/// whose every output belongs to the block author.
#[derive(Clone, Copy, Debug, PartialEq, Eq)]
pub struct BlockContext {
    pub height: u64,
    pub author: PublicKey,
    pub issuance: Value,
}

/// What applying a transaction does: the entries it spends and those it creates.
#[derive(Clone, Debug)]
pub struct Effects {
    pub removals: Vec<(OutputKey, TransactionOutput)>,
    pub insertions: Vec<(OutputKey, TransactionOutput)>,
}

/// Emitted once for each applied transaction.
#[derive(Clone, Debug)]
pub struct LedgerEvent {
    pub transaction: Transaction,
    pub effects: Effects,
}

pub open spec fn all_resolved(m: Map<OutputKey, TransactionOutput>, inputs: Seq<TransactionInput>) -> bool {
    forall|i: int| 0 <= i < inputs.len() ==> m.contains_key(#[trigger] inputs[i].outpoint)
}

pub open spec fn has_duplicate_input(inputs: Seq<TransactionInput>) -> bool {
    exists|i: int, j: int|
        0 <= i < j < inputs.len() && #[trigger] inputs[i].outpoint == #[trigger] inputs[j].outpoint
}

/// Every input carries the signature, by the owner of what it spends, of the
/// transaction's signing hash.
pub open spec fn all_signed(m: Map<OutputKey, TransactionOutput>, tx: Transaction) -> bool {
    forall|i: int|
        0 <= i < tx.inputs@.len() ==> sr25519_verifies(
            (#[trigger] tx.inputs@[i]).sigscript@,
            signing_hash_of(tx),
            m[tx.inputs@[i].outpoint].pubkey@,
        )
}

/// The sum of the values that the inputs spend.
pub open spec fn input_total(m: Map<OutputKey, TransactionOutput>, inputs: Seq<TransactionInput>) -> nat
    decreases inputs.len(),
{
    if inputs.len() == 0 {
        0
    } else {
        input_total(m, inputs.drop_last()) + m[inputs.last().outpoint].value as nat
    }
}

/// The sum of the values of the outputs.
pub open spec fn output_total(outputs: Seq<TransactionOutput>) -> nat
    decreases outputs.len(),
{
    if outputs.len() == 0 {
        0
    } else {
        output_total(outputs.drop_last()) + outputs.last().value as nat
    }
}

pub open spec fn pays_only(outputs: Seq<TransactionOutput>, author: PublicKey) -> bool {
    forall|i: int| 0 <= i < outputs.len() ==> (#[trigger] outputs[i]).pubkey == author
}

/// The issuance a transaction may spend: all of it for a reward transaction,
/// none otherwise.
pub open spec fn issuance_credit(tx: Transaction, ctx: BlockContext) -> nat {
    if tx.inputs@.len() == 0 && pays_only(tx.outputs@, ctx.author) {
        ctx.issuance as nat
    } else {
        0
    }
}

/// The keys derived for the outputs of `tx` are pairwise distinct and none is
/// in use in `m`.
pub open spec fn keys_fresh(m: Map<OutputKey, TransactionOutput>, tx: Transaction) -> bool {
    &&& forall|i: int, k: OutputKey|
        0 <= i < tx.outputs@.len() && #[trigger] m.contains_key(k) ==> k@ != #[trigger] output_key_of(
            content_hash_of(tx),
            i as nat,
        )
    &&& forall|i: int, j: int|
        0 <= i < j < tx.outputs@.len() ==> #[trigger] output_key_of(content_hash_of(tx), i as nat)
            != #[trigger] output_key_of(content_hash_of(tx), j as nat)
}

/// The first check that `tx` fails against the set `m`, in order, or `None`.
pub open spec fn validation_error(
    m: Map<OutputKey, TransactionOutput>,
    tx: Transaction,
    ctx: BlockContext,
) -> Option<ValidationError> {
    if tx.outputs@.len() == 0 {
        Some(ValidationError::EmptyOutputs)
    } else if !encodable(tx) {
        Some(ValidationError::ArithmeticOverflow)
    } else if !all_resolved(m, tx.inputs@) {
        Some(ValidationError::MissingInput)
    } else if has_duplicate_input(tx.inputs@) {
        Some(ValidationError::DuplicateInput)
    } else if !all_signed(m, tx) {
        Some(ValidationError::InvalidSignature)
    } else if input_total(m, tx.inputs@) + issuance_credit(tx, ctx) > u128::MAX
        || output_total(tx.outputs@) > u128::MAX {
        Some(ValidationError::ArithmeticOverflow)
    } else if output_total(tx.outputs@) > input_total(m, tx.inputs@) + issuance_credit(tx, ctx) {
        Some(ValidationError::InsufficientValue)
    } else if !keys_fresh(m, tx) {
        Some(ValidationError::KeyCollision)
    } else {
        None
    }
}

/// `e` spends each input's outpoint with the output it resolves to in `m`,
/// and creates each output under its derived key, in order.
pub open spec fn effects_of(m: Map<OutputKey, TransactionOutput>, tx: Transaction, e: Effects) -> bool {
    &&& e.removals@.len() == tx.inputs@.len()
    &&& forall|i: int|
        0 <= i < tx.inputs@.len() ==> #[trigger] e.removals@[i] == (
            tx.inputs@[i].outpoint,
            m[tx.inputs@[i].outpoint],
        )
    &&& e.insertions@.len() == tx.outputs@.len()
    &&& forall|i: int|
        0 <= i < tx.outputs@.len() ==> (#[trigger] e.insertions@[i]).0@ == output_key_of(
            content_hash_of(tx),
            i as nat,
        ) && e.insertions@[i].1 == tx.outputs@[i]
}

pub open spec fn remove_all(
    m: Map<OutputKey, TransactionOutput>,
    s: Seq<(OutputKey, TransactionOutput)>,
) -> Map<OutputKey, TransactionOutput>
    decreases s.len(),
{
    if s.len() == 0 {
        m
    } else {
        remove_all(m, s.drop_last()).remove(s.last().0)
    }
}

pub open spec fn insert_all(
    m: Map<OutputKey, TransactionOutput>,
    s: Seq<(OutputKey, TransactionOutput)>,
) -> Map<OutputKey, TransactionOutput>
    decreases s.len(),
{
    if s.len() == 0 {
        m
    } else {
        insert_all(m, s.drop_last()).insert(s.last().0, s.last().1)
    }
}

/// The set after `e`: removals first, then insertions in order.
pub open spec fn applied(m: Map<OutputKey, TransactionOutput>, e: Effects) -> Map<OutputKey, TransactionOutput> {
    insert_all(remove_all(m, e.removals@), e.insertions@)
}

/// `e` still fits `m`: each removal is present with the same output, and no
/// insertion overwrites an entry.
pub open spec fn effects_current(m: Map<OutputKey, TransactionOutput>, e: Effects) -> bool {
    &&& forall|i: int|
        0 <= i < e.removals@.len() ==> m.contains_key((#[trigger] e.removals@[i]).0) && m[e.removals@[i].0]
            == e.removals@[i].1
    &&& forall|i: int| 0 <= i < e.insertions@.len() ==> !m.contains_key((#[trigger] e.insertions@[i]).0)
}

proof fn lemma_input_total_prefix(m: Map<OutputKey, TransactionOutput>, s: Seq<TransactionInput>, i: int)
    requires
        0 <= i <= s.len(),
    ensures
        input_total(m, s.take(i)) <= input_total(m, s),
    decreases s.len(),
{
    if i < s.len() {
        lemma_input_total_prefix(m, s.drop_last(), i);
        assert(s.drop_last().take(i) == s.take(i));
    } else {
        assert(s.take(i) == s);
    }
}

proof fn lemma_output_total_prefix(s: Seq<TransactionOutput>, i: int)
    requires
        0 <= i <= s.len(),
    ensures
        output_total(s.take(i)) <= output_total(s),
    decreases s.len(),
{
    if i < s.len() {
        lemma_output_total_prefix(s.drop_last(), i);
        assert(s.drop_last().take(i) == s.take(i));
    } else {
        assert(s.take(i) == s);
    }
}

fn outputs_equal(a: &TransactionOutput, b: &TransactionOutput) -> (r: bool)
    ensures
        r == (*a == *b),
{
    a.value == b.value && keys_equal(&a.pubkey, &b.pubkey)
}

/// Checks `tx` against `set` and the block context, without changing
/// anything; on success returns what applying it would do.
pub fn validate_transaction(set: &UtxoSet, tx: &Transaction, ctx: &BlockContext) -> (r: Result<
    Effects,
    ValidationError,
>)
    requires
        set.wf(),
    ensures
        match r {
            Ok(e) => validation_error(set@, *tx, *ctx) is None && effects_of(set@, *tx, e),
            Err(err) => validation_error(set@, *tx, *ctx) == Some(err),
        },
{
    let ghost m = set@;
    if tx.outputs.len() == 0 {
        return Err(ValidationError::EmptyOutputs);
    }
    if tx.inputs.len() > u32::MAX as usize || tx.outputs.len() > u32::MAX as usize {
        return Err(ValidationError::ArithmeticOverflow);
    }
    // resolve every input
    let mut resolved: Vec<TransactionOutput> = Vec::new();
    let mut i: usize = 0;
    while i < tx.inputs.len()
        invariant
            set.wf(),
            m == set@,
            tx.outputs@.len() > 0,
            encodable(*tx),
            i <= tx.inputs@.len(),
            resolved@.len() == i,
            forall|j: int|
                0 <= j < i ==> m.contains_key(#[trigger] tx.inputs@[j].outpoint) && resolved@[j]
                    == m[tx.inputs@[j].outpoint],
        decreases tx.inputs@.len() - i,
    {
        match set.get(&tx.inputs[i].outpoint) {
            Some(o) => resolved.push(o),
            None => {
                return Err(ValidationError::MissingInput);
            },
        }
        i = i + 1;
    }
    assert(all_resolved(m, tx.inputs@));
    // no outpoint twice
    let mut i: usize = 0;
    while i < tx.inputs.len()
        invariant
            set.wf(),
            m == set@,
            tx.outputs@.len() > 0,
            encodable(*tx),
            all_resolved(m, tx.inputs@),
            i <= tx.inputs@.len(),
            forall|a: int, b: int|
                0 <= a < b < i ==> #[trigger] tx.inputs@[a].outpoint != #[trigger] tx.inputs@[b].outpoint,
        decreases tx.inputs@.len() - i,
    {
        let mut j: usize = 0;
        while j < i
            invariant
                set.wf(),
                m == set@,
                tx.outputs@.len() > 0,
                encodable(*tx),
                all_resolved(m, tx.inputs@),
                j <= i < tx.inputs@.len(),
                forall|a: int| 0 <= a < j ==> #[trigger] tx.inputs@[a].outpoint != tx.inputs@[i as int].outpoint,
            decreases i - j,
        {
            if keys_equal(&tx.inputs[j].outpoint, &tx.inputs[i].outpoint) {
                assert(tx.inputs@[j as int].outpoint == tx.inputs@[i as int].outpoint);
                return Err(ValidationError::DuplicateInput);
            }
            j = j + 1;
        }
        i = i + 1;
    }
    assert(!has_duplicate_input(tx.inputs@));
    // every input authorized
    let msg = signing_hash(tx);
    let mut i: usize = 0;
    while i < tx.inputs.len()
        invariant
            set.wf(),
            m == set@,
            tx.outputs@.len() > 0,
            encodable(*tx),
            all_resolved(m, tx.inputs@),
            !has_duplicate_input(tx.inputs@),
            i <= tx.inputs@.len(),
            resolved@.len() == tx.inputs@.len(),
            forall|j: int| 0 <= j < tx.inputs@.len() ==> resolved@[j] == m[#[trigger] tx.inputs@[j].outpoint],
            msg@ == signing_hash_of(*tx),
            forall|j: int|
                0 <= j < i ==> sr25519_verifies(
                    (#[trigger] tx.inputs@[j]).sigscript@,
                    signing_hash_of(*tx),
                    m[tx.inputs@[j].outpoint].pubkey@,
                ),
        decreases tx.inputs@.len() - i,
    {
        if !verify_sr25519(&tx.inputs[i].sigscript, &msg, &resolved[i].pubkey) {
            assert(tx.inputs@[i as int] == tx.inputs@[i as int]);
            return Err(ValidationError::InvalidSignature);
        }
        i = i + 1;
    }
    assert(all_signed(m, *tx));
    // value conservation
    let mut credit: u128 = 0;
    if tx.inputs.len() == 0 {
        let mut all_author = true;
        let mut k: usize = 0;
        while k < tx.outputs.len()
            invariant
                k <= tx.outputs@.len(),
                all_author == (forall|j: int| 0 <= j < k ==> (#[trigger] tx.outputs@[j]).pubkey == ctx.author),
            decreases tx.outputs@.len() - k,
        {
            if !keys_equal(&tx.outputs[k].pubkey, &ctx.author) {
                all_author = false;
            }
            k = k + 1;
        }
        if all_author {
            credit = ctx.issuance;
        }
    }
    assert(credit as nat == issuance_credit(*tx, *ctx));
    let mut total_in: u128 = credit;
    let mut i: usize = 0;
    while i < tx.inputs.len()
        invariant
            set.wf(),
            m == set@,
            tx.outputs@.len() > 0,
            encodable(*tx),
            all_resolved(m, tx.inputs@),
            !has_duplicate_input(tx.inputs@),
            all_signed(m, *tx),
            credit as nat == issuance_credit(*tx, *ctx),
            i <= tx.inputs@.len(),
            resolved@.len() == tx.inputs@.len(),
            forall|j: int| 0 <= j < tx.inputs@.len() ==> resolved@[j] == m[#[trigger] tx.inputs@[j].outpoint],
            total_in as nat == credit as nat + input_total(m, tx.inputs@.take(i as int)),
        decreases tx.inputs@.len() - i,
    {
        assert(tx.inputs@.take(i + 1).drop_last() == tx.inputs@.take(i as int));
        match total_in.checked_add(resolved[i].value) {
            Some(t) => total_in = t,
            None => {
                proof {
                    lemma_input_total_prefix(m, tx.inputs@, i + 1);
                }
                return Err(ValidationError::ArithmeticOverflow);
            },
        }
        i = i + 1;
    }
    assert(tx.inputs@.take(i as int) == tx.inputs@);
    let mut total_out: u128 = 0;
    let mut k: usize = 0;
    while k < tx.outputs.len()
        invariant
            set.wf(),
            m == set@,
            tx.outputs@.len() > 0,
            encodable(*tx),
            all_resolved(m, tx.inputs@),
            !has_duplicate_input(tx.inputs@),
            all_signed(m, *tx),
            total_in as nat == issuance_credit(*tx, *ctx) + input_total(m, tx.inputs@),
            k <= tx.outputs@.len(),
            total_out as nat == output_total(tx.outputs@.take(k as int)),
        decreases tx.outputs@.len() - k,
    {
        assert(tx.outputs@.take(k + 1).drop_last() == tx.outputs@.take(k as int));
        match total_out.checked_add(tx.outputs[k].value) {
            Some(t) => total_out = t,
            None => {
                proof {
                    lemma_output_total_prefix(tx.outputs@, k + 1);
                }
                return Err(ValidationError::ArithmeticOverflow);
            },
        }
        k = k + 1;
    }
    assert(tx.outputs@.take(k as int) == tx.outputs@);
    if total_out > total_in {
        return Err(ValidationError::InsufficientValue);
    }
    // derive the new keys
    let h = content_hash(tx);
    let mut insertions: Vec<(OutputKey, TransactionOutput)> = Vec::new();
    let mut k: usize = 0;
    while k < tx.outputs.len()
        invariant
            set.wf(),
            m == set@,
            tx.outputs@.len() > 0,
            encodable(*tx),
            all_resolved(m, tx.inputs@),
            !has_duplicate_input(tx.inputs@),
            all_signed(m, *tx),
            output_total(tx.outputs@) <= input_total(m, tx.inputs@) + issuance_credit(*tx, *ctx),
            input_total(m, tx.inputs@) + issuance_credit(*tx, *ctx) <= u128::MAX,
            k <= tx.outputs@.len(),
            h@ == content_hash_of(*tx),
            insertions@.len() == k,
            forall|a: int|
                0 <= a < k ==> (#[trigger] insertions@[a]).0@ == output_key_of(h@, a as nat)
                    && insertions@[a].1 == tx.outputs@[a],
            forall|a: int, kk: OutputKey|
                0 <= a < k && #[trigger] m.contains_key(kk) ==> kk@ != #[trigger] output_key_of(h@, a as nat),
            forall|a: int, b: int|
                0 <= a < b < k ==> #[trigger] output_key_of(h@, a as nat) != #[trigger] output_key_of(
                    h@,
                    b as nat,
                ),
        decreases tx.outputs@.len() - k,
    {
        let key = derive_output_key(&h, k as u64);
        if set.contains(&key) {
            assert(!keys_fresh(m, *tx)) by {
                let ki: int = k as int;
                assert(m.contains_key(key));
                assert(key@ == output_key_of(content_hash_of(*tx), ki as nat));
                assert(0 <= ki < tx.outputs@.len());
            }
            return Err(ValidationError::KeyCollision);
        }
        assert forall|kk: OutputKey| #[trigger] m.contains_key(kk) implies kk@ != output_key_of(h@, k as nat) by {
            if kk@ == key@ {
                assert(kk =~= key);
            }
        }
        let mut j: usize = 0;
        while j < k
            invariant
                set.wf(),
                m == set@,
                tx.outputs@.len() > 0,
                encodable(*tx),
                all_resolved(m, tx.inputs@),
                !has_duplicate_input(tx.inputs@),
                all_signed(m, *tx),
                output_total(tx.outputs@) <= input_total(m, tx.inputs@) + issuance_credit(*tx, *ctx),
                input_total(m, tx.inputs@) + issuance_credit(*tx, *ctx) <= u128::MAX,
                h@ == content_hash_of(*tx),
                j <= k < tx.outputs@.len(),
                insertions@.len() == k,
                forall|a: int| 0 <= a < k ==> (#[trigger] insertions@[a]).0@ == output_key_of(h@, a as nat),
                key@ == output_key_of(h@, k as nat),
                forall|a: int| 0 <= a < j ==> #[trigger] output_key_of(h@, a as nat) != key@,
            decreases k - j,
        {
            if keys_equal(&insertions[j].0, &key) {
                assert(!keys_fresh(m, *tx)) by {
                    let ji: int = j as int;
                    let ki: int = k as int;
                    assert(output_key_of(content_hash_of(*tx), ji as nat) == output_key_of(
                        content_hash_of(*tx),
                        ki as nat,
                    ));
                    assert(0 <= ji < ki < tx.outputs@.len());
                }
                return Err(ValidationError::KeyCollision);
            }
            assert(insertions@[j as int].0@ != key@) by {
                if insertions@[j as int].0@ == key@ {
                    assert(insertions@[j as int].0 =~= key);
                }
            }
            j = j + 1;
        }
        insertions.push((key, tx.outputs[k]));
        k = k + 1;
    }
    assert(keys_fresh(m, *tx));
    // what gets spent
    let mut removals: Vec<(OutputKey, TransactionOutput)> = Vec::new();
    let mut i: usize = 0;
    while i < tx.inputs.len()
        invariant
            all_resolved(m, tx.inputs@),
            i <= tx.inputs@.len(),
            resolved@.len() == tx.inputs@.len(),
            forall|j: int| 0 <= j < tx.inputs@.len() ==> resolved@[j] == m[#[trigger] tx.inputs@[j].outpoint],
            removals@.len() == i,
            forall|j: int|
                0 <= j < i ==> #[trigger] removals@[j] == (tx.inputs@[j].outpoint, m[tx.inputs@[j].outpoint]),
        decreases tx.inputs@.len() - i,
    {
        removals.push((tx.inputs[i].outpoint, resolved[i]));
        i = i + 1;
    }
    Ok(Effects { removals, insertions })
}


/// Applies `e` to `set` as one unit: every removal is checked to be present
/// with the output it expects, and every insertion to overwrite nothing;
/// if any check fails the set is left unchanged.
pub fn commit_effects(set: &mut UtxoSet, e: &Effects) -> (r: Result<(), ValidationError>)
    requires
        old(set).wf(),
    ensures
        final(set).wf(),
        r is Ok <==> effects_current(old(set)@, *e),
        r is Ok ==> final(set)@ == applied(old(set)@, *e),
        r is Err ==> r == Err::<(), ValidationError>(ValidationError::Conflict) && final(set)@ == old(set)@,
{
    let ghost m = set@;
    let mut i: usize = 0;
    while i < e.removals.len()
        invariant
            set.wf(),
            m == set@,
            i <= e.removals@.len(),
            forall|j: int|
                0 <= j < i ==> m.contains_key((#[trigger] e.removals@[j]).0) && m[e.removals@[j].0]
                    == e.removals@[j].1,
        decreases e.removals@.len() - i,
    {
        let current = set.get(&e.removals[i].0);
        match current {
            Some(o) => {
                if !outputs_equal(&o, &e.removals[i].1) {
                    return Err(ValidationError::Conflict);
                }
            },
            None => {
                return Err(ValidationError::Conflict);
            },
        }
        i = i + 1;
    }
    let mut i: usize = 0;
    while i < e.insertions.len()
        invariant
            set.wf(),
            m == set@,
            i <= e.insertions@.len(),
            forall|j: int| 0 <= j < i ==> !m.contains_key((#[trigger] e.insertions@[j]).0),
        decreases e.insertions@.len() - i,
    {
        if set.contains(&e.insertions[i].0) {
            assert(m.contains_key(e.insertions@[i as int].0));
            return Err(ValidationError::Conflict);
        }
        i = i + 1;
    }
    assert(effects_current(m, *e));
    let mut i: usize = 0;
    while i < e.removals.len()
        invariant
            set.wf(),
            i <= e.removals@.len(),
            set@ == remove_all(m, e.removals@.take(i as int)),
        decreases e.removals@.len() - i,
    {
        assert(e.removals@.take(i + 1).drop_last() == e.removals@.take(i as int));
        set.remove(&e.removals[i].0);
        i = i + 1;
    }
    assert(e.removals@.take(i as int) == e.removals@);
    let mut i: usize = 0;
    while i < e.insertions.len()
        invariant
            set.wf(),
            i <= e.insertions@.len(),
            set@ == insert_all(remove_all(m, e.removals@), e.insertions@.take(i as int)),
        decreases e.insertions@.len() - i,
    {
        assert(e.insertions@.take(i + 1).drop_last() == e.insertions@.take(i as int));
        set.insert(e.insertions[i].0, e.insertions[i].1);
        i = i + 1;
    }
    assert(e.insertions@.take(i as int) == e.insertions@);
    Ok(())
}

proof fn lemma_valid_effects_current(m: Map<OutputKey, TransactionOutput>, tx: Transaction, ctx: BlockContext, e: Effects)
    requires
        validation_error(m, tx, ctx) is None,
        effects_of(m, tx, e),
    ensures
        effects_current(m, e),
{
    assert forall|i: int| 0 <= i < e.insertions@.len() implies !m.contains_key((#[trigger] e.insertions@[i]).0) by {
        let k = e.insertions@[i].0;
        if m.contains_key(k) {
            assert(k@ == output_key_of(content_hash_of(tx), i as nat));
        }
    }
    assert forall|i: int| 0 <= i < e.removals@.len() implies m.contains_key((#[trigger] e.removals@[i]).0) by {
        assert(e.removals@[i].0 == tx.inputs@[i].outpoint);
    }
}

/// Validates `tx` against `set` and, if it passes, applies it as one unit and
/// returns the event that records it. A rejected transaction leaves the set
/// unchanged.
pub fn apply_transaction(set: &mut UtxoSet, tx: Transaction, ctx: &BlockContext) -> (r: Result<
    LedgerEvent,
    ValidationError,
>)
    requires
        old(set).wf(),
    ensures
        final(set).wf(),
        match r {
            Ok(ev) => {
                &&& validation_error(old(set)@, tx, *ctx) is None
                &&& ev.transaction == tx
                &&& effects_of(old(set)@, tx, ev.effects)
                &&& final(set)@ == applied(old(set)@, ev.effects)
            },
            Err(err) => validation_error(old(set)@, tx, *ctx) == Some(err) && final(set)@ == old(set)@,
        },
{
    match validate_transaction(set, &tx, ctx) {
        Ok(effects) => {
            proof {
                lemma_valid_effects_current(set@, tx, *ctx, effects);
            }
            let committed = commit_effects(set, &effects);
            match committed {
                Ok(()) => Ok(LedgerEvent { transaction: tx, effects }),
                Err(_) => Err(ValidationError::Conflict),
            }
        },
        Err(err) => Err(err),
    }
}

} // verus!
