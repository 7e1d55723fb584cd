//! The block/transaction data model: typed ledger records, the block
//! header that links blocks into a chain, and the block constructor that
//! summarizes a transaction batch by a content hash.
use vstd::prelude::*;
use crate::crypto::{blake3_of, hash_of};
use crate::codec::{TxV, TxDataV, enc_tx_batch, encode_transaction};
use crate::bytes::{u64_le, push_u64_le, push_bytes};
use crate::clock::now_millis;

verus! {

/// The intent of a ledger record. The ledger stores every variant as an
/// ordinary record; it does not enforce the variant's semantic effect.
#[derive(Debug, Clone, Copy, PartialEq, Eq, Structural)]
pub enum TransactionType {
    /// Store an access token (encrypted by the caller).
    StoreToken,
    /// Update an access token.
    UpdateToken,
    /// Delete an access token.
    DeleteToken,
    /// Store cached data.
    StoreCache,
    /// Update cached data.
    UpdateCache,
    /// Delete cached data.
    DeleteCache,
}

impl TransactionType {
    /// The small-integer code under which host applications address a
    /// transaction type.
    pub open spec fn spec_code(self) -> u32 {
        match self {
            TransactionType::StoreToken => 0,
            TransactionType::UpdateToken => 1,
            TransactionType::DeleteToken => 2,
            TransactionType::StoreCache => 3,
            TransactionType::UpdateCache => 4,
            TransactionType::DeleteCache => 5,
        }
    }

    /// The code of this transaction type.
    pub fn code(&self) -> (c: u32)
        ensures
            c == self.spec_code(),
    {
        match self {
            TransactionType::StoreToken => 0,
            TransactionType::UpdateToken => 1,
            TransactionType::DeleteToken => 2,
            TransactionType::StoreCache => 3,
            TransactionType::UpdateCache => 4,
            TransactionType::DeleteCache => 5,
        }
    }

    /// The transaction type a host names by `code`, exactly for the six
    /// assigned codes.
    pub fn from_code(code: u32) -> (r: Option<TransactionType>)
        ensures
            match r {
                Some(t) => t.spec_code() == code,
                None => code >= 6,
            },
    {
        match code {
            0 => Some(TransactionType::StoreToken),
            1 => Some(TransactionType::UpdateToken),
            2 => Some(TransactionType::DeleteToken),
            3 => Some(TransactionType::StoreCache),
            4 => Some(TransactionType::UpdateCache),
            5 => Some(TransactionType::DeleteCache),
            _ => None,
        }
    }
}

/// The payload of a record: a logical key used for later lookup, a
/// caller-opaque value, and auxiliary metadata pairs whose order carries
/// no meaning for the ledger.
#[derive(Debug, Clone)]
pub struct TransactionData {
    /// Logical identity of the record (a user id, a token id, ...).
    pub key: String,
    /// The value bytes; expected to be encrypted by the caller already.
    pub value: Vec<u8>,
    /// Additional metadata pairs.
    pub metadata: Vec<(String, String)>,
}

/// A single authenticated, typed record intended for eventual inclusion
/// in a block. Signature and public key are carried but not checked on
/// insertion into the ledger.
#[derive(Debug, Clone)]
pub struct Transaction {
    /// The kind of record.
    pub transaction_type: TransactionType,
    /// The record payload.
    pub data: TransactionData,
    /// Creation time in milliseconds; the sole ordering key for
    /// latest-value queries.
    pub timestamp: i64,
    /// Signature of the record creator.
    pub signature: Vec<u8>,
    /// Public key of the record creator.
    pub public_key: Vec<u8>,
}

/// The mathematical contents of a metadata list.
pub open spec fn meta_view(m: Seq<(String, String)>) -> Seq<(Seq<char>, Seq<char>)> {
    Seq::new(m.len(), |i: int| (m[i].0@, m[i].1@))
}

impl View for TransactionData {
    type V = TxDataV;

    open spec fn view(&self) -> TxDataV {
        TxDataV { key: self.key@, value: self.value@, metadata: meta_view(self.metadata@) }
    }
}

impl View for Transaction {
    type V = TxV;

    open spec fn view(&self) -> TxV {
        TxV {
            transaction_type: self.transaction_type,
            data: self.data@,
            timestamp: self.timestamp,
            signature: self.signature@,
            public_key: self.public_key@,
        }
    }
}

/// The views of a batch of transactions, in order.
pub open spec fn txs_view(s: Seq<Transaction>) -> Seq<TxV> {
    Seq::new(s.len(), |i: int| s[i]@)
}

/// Metadata of a block: version of the block format, the link to the
/// previous block, the content hash over the serialized transaction
/// batch, creation time, caller-supplied height, and an optional
/// validator signature.
#[derive(Debug, Clone)]
pub struct BlockHeader {
    /// Version of the block format.
    pub version: u16,
    /// Content hash of the previous block.
    pub previous_hash: crate::crypto::Hash,
    /// Content hash over the serialized transaction batch.
    pub merkle_root: crate::crypto::Hash,
    /// Creation time in milliseconds.
    pub timestamp: i64,
    /// Block height in the chain, caller-supplied.
    pub height: u64,
    /// Validator signature, absent on construction.
    pub validator_signature: Option<Vec<u8>>,
}

/// A batch of transactions plus the header that links it to the previous
/// block and summarizes the batch by a content hash.
#[derive(Debug, Clone)]
pub struct Block {
    /// Block header containing metadata.
    pub header: BlockHeader,
    /// Transactions contained in this block.
    pub transactions: Vec<Transaction>,
}

impl Block {
    /// Create a new block over a batch of transactions. The merkle root
    /// is the content hash of the batch's serialized form: a function of
    /// the transactions alone, so equal batches always produce equal
    /// roots. No validation is performed on the batch, and nothing is
    /// written to persistent storage.
    pub fn new(previous_hash: crate::crypto::Hash, height: u64, transactions: Vec<Transaction>) -> (b: Block)
        ensures
            b.header.version == 1,
            b.header.previous_hash == previous_hash,
            b.header.merkle_root@ == blake3_of(enc_tx_batch(txs_view(transactions@))),
            b.header.merkle_root.wf(),
            b.header.height == height,
            b.header.validator_signature is None,
            b.transactions == transactions,
    {
        let timestamp = now_millis();
        let merkle_root = Self::compute_merkle_root(&transactions);
        Block {
            header: BlockHeader {
                version: 1,
                previous_hash,
                merkle_root,
                timestamp,
                height,
                validator_signature: None,
            },
            transactions,
        }
    }

    /// The content hash over the serialized transaction batch.
    #[verifier::loop_isolation(false)]
    fn compute_merkle_root(transactions: &Vec<Transaction>) -> (h: crate::crypto::Hash)
        ensures
            h@ == blake3_of(enc_tx_batch(txs_view(transactions@))),
            h.wf(),
    {
        let mut out: Vec<u8> = Vec::new();
        push_u64_le(&mut out, transactions.len() as u64);
        let mut i: usize = 0;
        while i < transactions.len()
            invariant
                i <= transactions@.len(),
                out@ == u64_le(transactions@.len() as u64) + crate::codec::enc_tx_list(
                    txs_view(transactions@).take(i as int),
                ),
            decreases transactions@.len() - i,
        {
            let piece = encode_transaction(&transactions[i]);
            push_bytes(&mut out, piece.as_slice());
            proof {
                crate::codec::lemma_enc_tx_list_push(
                    txs_view(transactions@).take(i as int),
                    transactions@[i as int]@,
                );
                assert(txs_view(transactions@).take(i + 1) =~= txs_view(transactions@).take(
                    i as int,
                ).push(transactions@[i as int]@));
                assert(out@ =~= u64_le(transactions@.len() as u64) + crate::codec::enc_tx_list(
                    txs_view(transactions@).take(i + 1),
                ));
            }
            i = i + 1;
        }
        proof {
            assert(txs_view(transactions@).take(transactions@.len() as int) =~= txs_view(
                transactions@,
            ));
        }
        hash_of(&out)
    }
}

/// Determinism: the bytes hashed into a merkle root are a function of
/// the transaction batch alone, so equal batches give equal roots, in
/// every process and on every run.
pub proof fn lemma_merkle_input_deterministic(a: Seq<TxV>, b: Seq<TxV>)
    requires
        a == b,
    ensures
        blake3_of(enc_tx_batch(a)) == blake3_of(enc_tx_batch(b)),
{
}

} // verus!
