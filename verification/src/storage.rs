//! The persistent ledger: two key-value stores (one for finalized
//! blocks, one for raw transaction records), an append operation that
//! files a record under a composite key derived from its logical key and
//! arrival time, and a latest-value query that scans the append log.
//!
//! The ledger works over an in-memory model of the two stores; a host
//! application persists the entries and hands them back on open.
use vstd::prelude::*;
use vstd::pervasive::VecAdditionalExecFns;
use vstd::utf8::encode_utf8;
use crate::bytes::{dec_u64, push_dec_u64, push_bytes, bytes_eq, bytes_starts_with, lex_lt,
    bytes_lex_lt};
use crate::block::{Transaction, TransactionData, TransactionType};
use crate::codec::{TxV, TxDataV, enc_tx, tx_fits, is_tx_encoding, decoded_tx, encode_transaction,
    decode_transaction};
use crate::clock::now_millis;

verus! {

/// Failures of the persistent ledger.
#[derive(Debug, Clone, Copy, PartialEq, Eq, Structural)]
pub enum StorageError {
    /// The stores could not be opened.
    StorageOpenError,
    /// An append could not be written.
    StorageWriteError,
    /// A scan could not be started.
    StorageReadError,
}

/// The mathematical contents of a list of store entries.
pub open spec fn entries_view(v: Seq<(Vec<u8>, Vec<u8>)>) -> Seq<(Seq<u8>, Seq<u8>)> {
    Seq::new(v.len(), |i: int| (v[i].0@, v[i].1@))
}

/// Whether some entry holds the key.
pub open spec fn contains_key(s: Seq<(Seq<u8>, Seq<u8>)>, k: Seq<u8>) -> bool {
    exists|i: int| 0 <= i < s.len() && s[i].0 == k
}

/// The position of the entry that holds the key.
pub open spec fn idx_of(s: Seq<(Seq<u8>, Seq<u8>)>, k: Seq<u8>) -> int {
    choose|i: int| 0 <= i < s.len() && s[i].0 == k
}

/// A store after a write: the value replaces the one under an existing
/// key, or a new entry is appended.
pub open spec fn put_spec(s: Seq<(Seq<u8>, Seq<u8>)>, k: Seq<u8>, v: Seq<u8>) -> Seq<
    (Seq<u8>, Seq<u8>),
> {
    if contains_key(s, k) {
        s.update(idx_of(s, k), (k, v))
    } else {
        s.push((k, v))
    }
}

/// The value stored under a key, if any.
pub open spec fn lookup(s: Seq<(Seq<u8>, Seq<u8>)>, k: Seq<u8>) -> Option<Seq<u8>> {
    if contains_key(s, k) {
        Some(s[idx_of(s, k)].1)
    } else {
        None
    }
}

/// A store rebuilt by writing a list of persisted entries in order.
pub open spec fn replay(s: Seq<(Seq<u8>, Seq<u8>)>) -> Seq<(Seq<u8>, Seq<u8>)>
    decreases s.len(),
{
    if s.len() == 0 {
        Seq::empty()
    } else {
        put_spec(replay(s.drop_last()), s.last().0, s.last().1)
    }
}

/// An in-memory key-value store with unique byte-string keys, kept in
/// insertion order: the ledger's model of one persistent store.
#[derive(Debug)]
pub struct KvStore {
    entries: Vec<(Vec<u8>, Vec<u8>)>,
}

impl View for KvStore {
    type V = Seq<(Seq<u8>, Seq<u8>)>;

    closed spec fn view(&self) -> Seq<(Seq<u8>, Seq<u8>)> {
        entries_view(self.entries@)
    }
}

impl KvStore {
    /// Keys are unique.
    pub open spec fn wf(&self) -> bool {
        forall|i: int, j: int| 0 <= i < j < self@.len() ==> self@[i].0 != self@[j].0
    }

    /// An empty store.
    pub fn new() -> (s: Self)
        ensures
            s@ == Seq::<(Seq<u8>, Seq<u8>)>::empty(),
            s.wf(),
    {
        let s = KvStore { entries: Vec::new() };
        proof {
            assert(s@ =~= Seq::<(Seq<u8>, Seq<u8>)>::empty());
        }
        s
    }

    /// How many entries the store holds.
    pub fn len(&self) -> (n: usize)
        ensures
            n == self@.len(),
    {
        self.entries.len()
    }

    /// The key of the entry at a position.
    pub fn key_at(&self, i: usize) -> (k: &Vec<u8>)
        requires
            i < self@.len(),
        ensures
            k@ == self@[i as int].0,
    {
        &self.entries[i].0
    }

    /// The value of the entry at a position.
    pub fn value_at(&self, i: usize) -> (v: &Vec<u8>)
        requires
            i < self@.len(),
        ensures
            v@ == self@[i as int].1,
    {
        &self.entries[i].1
    }

    /// The position of the entry that holds the key, if any.
    #[verifier::loop_isolation(false)]
    fn find(&self, key: &Vec<u8>) -> (r: Option<usize>)
        ensures
            match r {
                Some(i) => i < self@.len() && self@[i as int].0 == key@,
                None => !contains_key(self@, key@),
            },
    {
        let mut i: usize = 0;
        while i < self.entries.len()
            invariant
                i <= self@.len(),
                forall|j: int| 0 <= j < i ==> self@[j].0 != key@,
            decreases self@.len() - i,
        {
            if bytes_eq(&self.entries[i].0, key) {
                return Some(i);
            }
            i = i + 1;
        }
        None
    }

    /// The value stored under a key, if any.
    pub fn get(&self, key: &Vec<u8>) -> (r: Option<&Vec<u8>>)
        requires
            self.wf(),
        ensures
            match r {
                Some(v) => lookup(self@, key@) == Some(v@),
                None => lookup(self@, key@) is None,
            },
    {
        match self.find(key) {
            Some(i) => {
                proof {
                    let j = idx_of(self@, key@);
                    assert(self@[j].0 == key@);
                    assert(j == i);
                }
                Some(&self.entries[i].1)
            },
            None => None,
        }
    }

    /// Writes a value under a key: replaces the value under an existing
    /// key, or appends a new entry.
    pub fn put(&mut self, key: Vec<u8>, value: Vec<u8>)
        requires
            old(self).wf(),
        ensures
            final(self).wf(),
            final(self)@ == put_spec(old(self)@, key@, value@),
    {
        match self.find(&key) {
            Some(i) => {
                self.entries.set(i, (key, value));
                proof {
                    let j = idx_of(old(self)@, key@);
                    assert(old(self)@[j].0 == key@);
                    assert(j == i);
                    assert(self@ =~= old(self)@.update(i as int, (key@, value@)));
                }
            },
            None => {
                self.entries.push((key, value));
                proof {
                    assert(self@ =~= old(self)@.push((key@, value@)));
                }
            },
        }
    }
}

/// The prefix of every composite key filed under a logical key:
/// "tx:", the key's UTF-8 bytes, and ":".
pub open spec fn key_prefix(key: Seq<char>) -> Seq<u8> {
    seq![116u8, 120u8, 58u8] + encode_utf8(key) + seq![58u8]
}

/// The decimal bytes of a signed millisecond reading.
pub open spec fn dec_i64(ms: i64) -> Seq<u8> {
    if ms >= 0 {
        dec_u64(ms as u64)
    } else {
        seq![45u8] + dec_u64((-(ms as int)) as u64)
    }
}

/// The composite store key of a record: the logical key's prefix, then
/// the arrival time's decimal milliseconds.
pub open spec fn tx_key(key: Seq<char>, ms: i64) -> Seq<u8> {
    key_prefix(key) + dec_i64(ms)
}

/// The UTF-8 bytes of a string slice.
fn str_bytes_of(s: &str) -> (r: &[u8])
    ensures
        r@ == encode_utf8(s@),
        encode_utf8(s@).len() <= usize::MAX,
{
    let r = s.as_bytes();
    let n = r.len();
    proof {
        assert(r@.len() == n);
    }
    r
}

/// Appends the decimal bytes of a signed millisecond reading.
fn push_dec_i64(out: &mut Vec<u8>, ms: i64)
    ensures
        final(out)@ == old(out)@ + dec_i64(ms),
{
    if ms >= 0 {
        push_dec_u64(out, ms as u64);
    } else {
        out.push(45);
        let mag: u64 = (-(ms as i128)) as u64;
        push_dec_u64(out, mag);
        proof {
            assert(out@ =~= old(out)@ + dec_i64(ms));
        }
    }
}

/// Builds the scan prefix of a logical key.
fn make_key_prefix(key: &str) -> (r: Vec<u8>)
    ensures
        r@ == key_prefix(key@),
{
    let mut out: Vec<u8> = Vec::new();
    out.push(116);
    out.push(120);
    out.push(58);
    push_bytes(&mut out, str_bytes_of(key));
    out.push(58);
    proof {
        assert(out@ =~= key_prefix(key@));
    }
    out
}

/// Builds the composite store key of a record.
pub fn make_tx_key(key: &str, ms: i64) -> (r: Vec<u8>)
    ensures
        r@ == tx_key(key@, ms),
{
    let mut out = make_key_prefix(key);
    push_dec_i64(&mut out, ms);
    out
}

/// Copies a byte string.
#[verifier::loop_isolation(false)]
fn clone_bytes(v: &Vec<u8>) -> (r: Vec<u8>)
    ensures
        r@ == v@,
{
    let mut out: Vec<u8> = Vec::new();
    let mut i: usize = 0;
    while i < v.len()
        invariant
            i <= v@.len(),
            out@ =~= v@.subrange(0, i as int),
        decreases v@.len() - i,
    {
        out.push(v[i]);
        i = i + 1;
        proof {
            assert(out@ =~= v@.subrange(0, i as int));
        }
    }
    proof {
        assert(out@ =~= v@);
    }
    out
}

/// Whether a store entry answers a query for a logical key and type:
/// its composite key carries the key's prefix and its bytes decode to a
/// record of that type.
pub open spec fn entry_matches(e: (Seq<u8>, Seq<u8>), key: Seq<char>, t: TransactionType) -> bool {
    &&& key_prefix(key).is_prefix_of(e.0)
    &&& is_tx_encoding(e.1)
    &&& decoded_tx(e.1).transaction_type == t
}

/// The winning entry of a scan for a logical key and type: the
/// composite key and record of the match with the greatest timestamp;
/// among equal timestamps the record under the lexicographically
/// greatest composite key wins, as it would in a store that iterates
/// its keys in ascending byte order.
pub open spec fn latest_match_entry(
    s: Seq<(Seq<u8>, Seq<u8>)>,
    key: Seq<char>,
    t: TransactionType,
) -> Option<(Seq<u8>, TxV)>
    decreases s.len(),
{
    if s.len() == 0 {
        None
    } else {
        let rest = latest_match_entry(s.drop_last(), key, t);
        if entry_matches(s.last(), key, t) {
            let v = decoded_tx(s.last().1);
            match rest {
                Option::None => Some((s.last().0, v)),
                Option::Some(c) => if v.timestamp > c.1.timestamp || (v.timestamp == c.1.timestamp
                    && !lex_lt(s.last().0, c.0)) {
                    Some((s.last().0, v))
                } else {
                    Some(c)
                },
            }
        } else {
            rest
        }
    }
}

/// The record a scan of the store returns for a logical key and type:
/// among the matching entries, the one with the greatest timestamp; on
/// equal timestamps, the one under the lexicographically greatest
/// composite key.
pub open spec fn latest_match(s: Seq<(Seq<u8>, Seq<u8>)>, key: Seq<char>, t: TransactionType)
    -> Option<TxV>
{
    match latest_match_entry(s, key, t) {
        Option::Some(c) => Some(c.1),
        Option::None => None,
    }
}

/// The persistent ledger: a store for finalized blocks, a store for raw
/// transaction records, and the head hash read once at open time. The
/// operations here never write the blocks store or the head.
#[derive(Debug)]
pub struct BlockchainStorage {
    /// Store for finalized blocks; dormant in the operations here.
    blocks_db: KvStore,
    /// Store for raw transaction records.
    transactions_db: KvStore,
    /// The head hash found under "HEAD" at open time, if any.
    head_hash: Option<Vec<u8>>,
}

/// The key under which the blocks store tracks the chain head: "HEAD".
pub open spec fn head_key() -> Seq<u8> {
    seq![72u8, 69u8, 65u8, 68u8]
}

impl BlockchainStorage {
    /// Both stores keep unique keys.
    pub closed spec fn wf(&self) -> bool {
        self.blocks_db.wf() && self.transactions_db.wf()
    }

    /// The blocks store's contents.
    pub closed spec fn blocks(&self) -> Seq<(Seq<u8>, Seq<u8>)> {
        self.blocks_db@
    }

    /// The transaction store's contents.
    pub closed spec fn transactions(&self) -> Seq<(Seq<u8>, Seq<u8>)> {
        self.transactions_db@
    }

    /// The head hash read at open time.
    pub closed spec fn head(&self) -> Option<Seq<u8>> {
        match self.head_hash {
            Option::Some(v) => Some(v@),
            Option::None => None,
        }
    }

    /// Opens a ledger over the entries persisted for its two stores:
    /// rebuilds both stores by writing the entries in order, then reads
    /// the head hash under "HEAD" from the blocks store. An absent head
    /// is not an error.
    #[verifier::loop_isolation(false)]
    pub fn new(block_entries: Vec<(Vec<u8>, Vec<u8>)>, tx_entries: Vec<(Vec<u8>, Vec<u8>)>) -> (s:
        Self)
        ensures
            s.wf(),
            s.blocks() == replay(entries_view(block_entries@)),
            s.transactions() == replay(entries_view(tx_entries@)),
            s.head() == lookup(replay(entries_view(block_entries@)), head_key()),
    {
        let mut blocks_db = KvStore::new();
        let ghost bv = entries_view(block_entries@);
        let mut i: usize = 0;
        proof {
            assert(bv.take(0) =~= Seq::<(Seq<u8>, Seq<u8>)>::empty());
        }
        let n = block_entries.len();
        while i < n
            invariant
                i <= bv.len(),
                n == bv.len(),
                blocks_db.wf(),
                blocks_db@ == replay(bv.take(i as int)),
            decreases bv.len() - i,
        {
            let k = clone_bytes(&block_entries[i].0);
            let v = clone_bytes(&block_entries[i].1);
            blocks_db.put(k, v);
            proof {
                assert(bv.take(i + 1).drop_last() =~= bv.take(i as int));
                assert(bv.take(i + 1).last() == bv[i as int]);
            }
            i = i + 1;
        }
        proof {
            assert(bv.take(bv.len() as int) =~= bv);
        }
        let mut transactions_db = KvStore::new();
        let ghost tv = entries_view(tx_entries@);
        let mut j: usize = 0;
        proof {
            assert(tv.take(0) =~= Seq::<(Seq<u8>, Seq<u8>)>::empty());
        }
        let m = tx_entries.len();
        while j < m
            invariant
                j <= tv.len(),
                m == tv.len(),
                transactions_db.wf(),
                transactions_db@ == replay(tv.take(j as int)),
            decreases tv.len() - j,
        {
            let k = clone_bytes(&tx_entries[j].0);
            let v = clone_bytes(&tx_entries[j].1);
            transactions_db.put(k, v);
            proof {
                assert(tv.take(j + 1).drop_last() =~= tv.take(j as int));
                assert(tv.take(j + 1).last() == tv[j as int]);
            }
            j = j + 1;
        }
        proof {
            assert(tv.take(tv.len() as int) =~= tv);
        }
        let hk: Vec<u8> = vec![72u8, 69u8, 65u8, 68u8];
        proof {
            assert(hk@ =~= head_key());
        }
        let head_hash = match blocks_db.get(&hk) {
            Some(v) => Some(clone_bytes(v)),
            None => None,
        };
        BlockchainStorage { blocks_db, transactions_db, head_hash }
    }

    /// The head hash read at open time, if any.
    pub fn head_hash_bytes(&self) -> (r: &Option<Vec<u8>>)
        ensures
            match r {
                Option::Some(v) => self.head() == Some(v@),
                Option::None => self.head() is None,
            },
    {
        &self.head_hash
    }

    /// Appends a record under the composite key derived from its logical
    /// key and the given arrival time. A record already filed under the
    /// same key and millisecond is overwritten. No validation is
    /// performed on the record.
    pub fn append_at(&mut self, transaction: &Transaction, arrival_ms: i64) -> (r: Result<
        (),
        StorageError,
    >)
        requires
            old(self).wf(),
        ensures
            final(self).wf(),
            r is Ok,
            final(self).transactions() == put_spec(
                old(self).transactions(),
                tx_key(transaction.data.key@, arrival_ms),
                enc_tx(transaction@),
            ),
            final(self).blocks() == old(self).blocks(),
            final(self).head() == old(self).head(),
            tx_fits(transaction@),
    {
        let kref: &str = &transaction.data.key;
        let key = make_tx_key(kref, arrival_ms);
        let data = encode_transaction(transaction);
        self.transactions_db.put(key, data);
        Ok(())
    }

    /// Appends a record at the current time: the composite key pairs the
    /// record's logical key with the present millisecond reading.
    pub fn add_transaction(&mut self, transaction: Transaction) -> (r: Result<(), StorageError>)
        requires
            old(self).wf(),
        ensures
            final(self).wf(),
            r is Ok,
            exists|ms: i64|
                final(self).transactions() == put_spec(
                    old(self).transactions(),
                    tx_key(transaction.data.key@, ms),
                    enc_tx(transaction@),
                ),
            final(self).blocks() == old(self).blocks(),
            final(self).head() == old(self).head(),
    {
        let ms = now_millis();
        let r = self.append_at(&transaction, ms);
        proof {
            assert(self.transactions() == put_spec(
                old(self).transactions(),
                tx_key(transaction.data.key@, ms),
                enc_tx(transaction@),
            ));
        }
        r
    }

    /// The latest record filed under a logical key with the wanted type:
    /// scans the entries whose composite key carries the key's prefix,
    /// silently skips any record that fails to decode, and among the
    /// matching records returns the one with the greatest timestamp; on
    /// equal timestamps the record under the lexicographically greatest
    /// composite key wins. Returns nothing when no record matches.
    #[verifier::loop_isolation(false)]
    pub fn get_latest_for_key(&self, key: &str, tx_type: &TransactionType) -> (r: Result<
        Option<Transaction>,
        StorageError,
    >)
        ensures
            match r {
                Ok(opt) => match opt {
                    Option::Some(tx) => latest_match(self.transactions(), key@, *tx_type)
                        == Some(tx@),
                    Option::None => latest_match(self.transactions(), key@, *tx_type) is None,
                },
                Err(_) => false,
            },
    {
        let prefix = make_key_prefix(key);
        let n = self.transactions_db.len();
        let mut latest: Option<(Vec<u8>, Transaction)> = None;
        let mut i: usize = 0;
        proof {
            assert(self.transactions().take(0) =~= Seq::<(Seq<u8>, Seq<u8>)>::empty());
        }
        while i < n
            invariant
                i <= self.transactions().len(),
                n == self.transactions().len(),
                match latest {
                    Option::Some(c) => latest_match_entry(
                        self.transactions().take(i as int),
                        key@,
                        *tx_type,
                    ) == Some((c.0@, c.1@)),
                    Option::None => latest_match_entry(
                        self.transactions().take(i as int),
                        key@,
                        *tx_type,
                    ) is None,
                },
            decreases n - i,
        {
            proof {
                assert(self.transactions().take(i + 1).drop_last() =~= self.transactions().take(
                    i as int,
                ));
                assert(self.transactions().take(i + 1).last() == self.transactions()[i as int]);
            }
            if bytes_starts_with(self.transactions_db.key_at(i), &prefix) {
                match decode_transaction(self.transactions_db.value_at(i)) {
                    Some(tx) => {
                        if tx.transaction_type == *tx_type {
                            let replace = match &latest {
                                Option::Some(c) => tx.timestamp > c.1.timestamp || (tx.timestamp
                                    == c.1.timestamp && !bytes_lex_lt(
                                    self.transactions_db.key_at(i),
                                    &c.0,
                                )),
                                Option::None => true,
                            };
                            if replace {
                                latest = Some((clone_bytes(self.transactions_db.key_at(i)), tx));
                            }
                        }
                    },
                    None => {},
                }
            }
            i = i + 1;
        }
        proof {
            assert(self.transactions().take(self.transactions().len() as int)
                =~= self.transactions());
        }
        match latest {
            Some(c) => Ok(Some(c.1)),
            None => Ok(None),
        }
    }

    /// Builds a record with empty signature, public key and metadata
    /// around the given key, value and type, and appends it at the
    /// current time.
    pub fn store_record(&mut self, key: String, value: Vec<u8>, transaction_type: TransactionType)
        -> (r: Result<(), StorageError>)
        requires
            old(self).wf(),
        ensures
            final(self).wf(),
            r is Ok,
            exists|ms: i64, ts: i64|
                final(self).transactions() == put_spec(
                    old(self).transactions(),
                    tx_key(key@, ms),
                    enc_tx(
                        TxV {
                            transaction_type: transaction_type,
                            data: TxDataV {
                                key: key@,
                                value: value@,
                                metadata: Seq::empty(),
                            },
                            timestamp: ts,
                            signature: Seq::empty(),
                            public_key: Seq::empty(),
                        },
                    ),
                ),
            final(self).blocks() == old(self).blocks(),
            final(self).head() == old(self).head(),
    {
        let ghost kv = key@;
        let ghost vv = value@;
        let timestamp = now_millis();
        let tx = Transaction {
            transaction_type,
            data: TransactionData { key, value, metadata: Vec::new() },
            timestamp,
            signature: Vec::new(),
            public_key: Vec::new(),
        };
        proof {
            assert(tx@.data.metadata =~= Seq::<(Seq<char>, Seq<char>)>::empty());
            assert(tx@.signature =~= Seq::<u8>::empty());
            assert(tx@.public_key =~= Seq::<u8>::empty());
        }
        let ms = now_millis();
        let r = self.append_at(&tx, ms);
        proof {
            assert(tx@ =~= TxV {
                transaction_type: transaction_type,
                data: TxDataV { key: kv, value: vv, metadata: Seq::empty() },
                timestamp: timestamp,
                signature: Seq::empty(),
                public_key: Seq::empty(),
            });
        }
        r
    }

    /// The value bytes of the latest record filed under a logical key
    /// with the wanted type, or nothing when no record matches.
    pub fn retrieve_record(&self, key: &str, transaction_type: &TransactionType) -> (r: Option<
        Vec<u8>,
    >)
        ensures
            match latest_match(self.transactions(), key@, *transaction_type) {
                Option::Some(v) => r is Some && r.unwrap()@ == v.data.value,
                Option::None => r is None,
            },
    {
        match self.get_latest_for_key(key, transaction_type) {
            Ok(Some(tx)) => Some(tx.data.value),
            Ok(None) => None,
            Err(_) => None,
        }
    }
}

/// The composite key of a record carries its logical key's prefix.
pub proof fn lemma_key_has_prefix(key: Seq<char>, ms: i64)
    ensures
        key_prefix(key).is_prefix_of(tx_key(key, ms)),
{
    assert(tx_key(key, ms).subrange(0, key_prefix(key).len() as int) =~= key_prefix(key));
}

/// A write under a key the store does not hold appends an entry.
pub proof fn lemma_put_fresh(s: Seq<(Seq<u8>, Seq<u8>)>, k: Seq<u8>, v: Seq<u8>)
    requires
        !contains_key(s, k),
    ensures
        put_spec(s, k, v) == s.push((k, v)),
{
}

/// Append/query round trip and latest-wins: after a record is filed
/// under a fresh composite key, the query for its logical key and type
/// returns exactly that record, provided its timestamp is newer than
/// every matching record already stored (in particular, when none is).
pub proof fn lemma_append_latest_wins(s: Seq<(Seq<u8>, Seq<u8>)>, key: Seq<char>, ms: i64, v: TxV)
    requires
        tx_fits(v),
        v.data.key == key,
        !contains_key(s, tx_key(key, ms)),
        match latest_match(s, key, v.transaction_type) {
            Option::None => true,
            Option::Some(c) => v.timestamp > c.timestamp,
        },
    ensures
        latest_match(put_spec(s, tx_key(key, ms), enc_tx(v)), key, v.transaction_type) == Some(v),
{
    let e = (tx_key(key, ms), enc_tx(v));
    let s2 = put_spec(s, tx_key(key, ms), enc_tx(v));
    assert(s2 == s.push(e));
    assert(s2.drop_last() =~= s);
    assert(s2.last() == e);
    crate::codec::lemma_tx_round_trip(v);
    lemma_key_has_prefix(key, ms);
    assert(entry_matches(e, key, v.transaction_type));
}

/// An entry that does not answer a query leaves that query's result
/// unchanged when it is appended.
pub proof fn lemma_append_no_match(
    s: Seq<(Seq<u8>, Seq<u8>)>,
    e: (Seq<u8>, Seq<u8>),
    key: Seq<char>,
    t: TransactionType,
)
    requires
        !entry_matches(e, key, t),
    ensures
        latest_match(s.push(e), key, t) == latest_match(s, key, t),
{
    assert(s.push(e).drop_last() =~= s);
    assert(s.push(e).last() == e);
}

/// Type isolation: a record of another type answers no query for this
/// type, whatever key it is filed under.
pub proof fn lemma_other_type_no_match(k: Seq<u8>, v: TxV, key: Seq<char>, t: TransactionType)
    requires
        tx_fits(v),
        v.transaction_type != t,
    ensures
        !entry_matches((k, enc_tx(v)), key, t),
{
    crate::codec::lemma_tx_round_trip(v);
}

/// Prefix isolation: a record filed under a longer logical key whose
/// next byte is no separator is invisible to a query for the shorter
/// key; the scan prefix does not leak sibling-prefixed keys.
pub proof fn lemma_prefix_isolated(k1: Seq<char>, k2: Seq<char>, ms: i64)
    requires
        encode_utf8(k1).len() < encode_utf8(k2).len(),
        encode_utf8(k2)[encode_utf8(k1).len() as int] != 58,
    ensures
        !key_prefix(k1).is_prefix_of(tx_key(k2, ms)),
{
    let u1 = encode_utf8(k1);
    let u2 = encode_utf8(k2);
    let p = key_prefix(k1);
    assert(p[3 + u1.len() as int] == 58);
    assert(tx_key(k2, ms)[3 + u1.len() as int] == u2[u1.len() as int]);
    if p.is_prefix_of(tx_key(k2, ms)) {
        assert(tx_key(k2, ms).subrange(0, p.len() as int)[3 + u1.len() as int] == tx_key(k2, ms)[3
            + u1.len() as int]);
        assert(false);
    }
}

/// Corruption tolerance: an entry whose bytes decode to no record
/// answers no query; a scan simply passes it over.
pub proof fn lemma_corrupt_no_match(k: Seq<u8>, bytes: Seq<u8>, key: Seq<char>, t: TransactionType)
    requires
        !is_tx_encoding(bytes),
    ensures
        !entry_matches((k, bytes), key, t),
{
}

} // verus!
