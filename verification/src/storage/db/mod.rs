//! The database interface.
//!
//! [`Database`] is byte-oriented, so nothing above this module names an engine. A database is
//! opened with the tables it hosts, which is how a node can put different tables in different
//! databases.
//!
//! [`Store`] binds one table to one database. Writes go through a [`Batch`], which the engine
//! applies in one step, so everything sharing a database can be written atomically.

pub mod table;

pub use table::{Decode, Encode, Profile, Table};

use std::marker::PhantomData;
use vstd::prelude::*;

use crate::bytes::bytes_lt;
use crate::storage::error::{Result, StorageError};

verus! {

/// What a database holds: for each table name and key, the value stored there.
pub type Contents = Map<(Seq<char>, Seq<u8>), Seq<u8>>;

/// A write, as the database sees it.
pub enum WriteView {
    Put(Seq<char>, Seq<u8>, Seq<u8>),
    Delete(Seq<char>, Seq<u8>),
}

/// The contents after one write.
pub open spec fn apply(c: Contents, w: WriteView) -> Contents {
    match w {
        WriteView::Put(t, k, v) => c.insert((t, k), v),
        WriteView::Delete(t, k) => c.remove((t, k)),
    }
}

/// The contents after a sequence of writes, in order.
pub open spec fn apply_all(c: Contents, ws: Seq<WriteView>) -> Contents
    decreases ws.len(),
{
    if ws.len() == 0 {
        c
    } else {
        apply(apply_all(c, ws.drop_last()), ws.last())
    }
}

/// Writes applied in two runs are the writes applied in one.
pub proof fn lemma_apply_all_concat(c: Contents, a: Seq<WriteView>, b: Seq<WriteView>)
    ensures
        apply_all(c, a + b) == apply_all(apply_all(c, a), b),
    decreases b.len(),
{
    if b.len() == 0 {
        assert(a + b =~= a);
    } else {
        assert((a + b).drop_last() =~= a + b.drop_last());
        lemma_apply_all_concat(c, a, b.drop_last());
    }
}

/// Writes that leave a key alone leave its value alone.
pub proof fn lemma_apply_all_untouched(c: Contents, ws: Seq<WriteView>, table: Seq<char>, key: Seq<u8>)
    requires
        forall|i: int| 0 <= i < ws.len() ==> !touches(#[trigger] ws[i], table, key),
    ensures
        lookup(apply_all(c, ws), table, key) == lookup(c, table, key),
    decreases ws.len(),
{
    if ws.len() > 0 {
        lemma_apply_all_untouched(c, ws.drop_last(), table, key);
        assert(!touches(ws[ws.len() - 1], table, key));
    }
}

/// What a write leaves under its key.
pub open spec fn written(w: WriteView) -> Option<Seq<u8>> {
    match w {
        WriteView::Put(_, _, v) => Some(v),
        WriteView::Delete(_, _) => None,
    }
}

/// A key ends up holding `val` when every write to it leaves `val`, and it either held `val`
/// already or some write reaches it.
pub proof fn lemma_apply_all_settles(
    c: Contents,
    ws: Seq<WriteView>,
    table: Seq<char>,
    key: Seq<u8>,
    val: Option<Seq<u8>>,
)
    requires
        lookup(c, table, key) == val || exists|j: int| 0 <= j < ws.len() && touches(#[trigger] ws[j], table, key),
        forall|j: int| 0 <= j < ws.len() && touches(#[trigger] ws[j], table, key) ==> written(ws[j]) == val,
    ensures
        lookup(apply_all(c, ws), table, key) == val,
    decreases ws.len(),
{
    if ws.len() > 0 {
        let p = ws.drop_last();
        let last = ws[ws.len() - 1];
        if !touches(last, table, key) {
            if lookup(c, table, key) != val {
                let j = choose|j: int| 0 <= j < ws.len() && touches(#[trigger] ws[j], table, key);
                assert(p[j] == ws[j]);
            }
            assert forall|j: int| 0 <= j < p.len() && touches(#[trigger] p[j], table, key) implies written(p[j]) == val by {
                assert(p[j] == ws[j]);
            }
            lemma_apply_all_settles(c, p, table, key, val);
        }
    }
}

/// Whether a write is to the given key of the given table.
pub open spec fn touches(w: WriteView, table: Seq<char>, key: Seq<u8>) -> bool {
    match w {
        WriteView::Put(t, k, _) => t == table && k == key,
        WriteView::Delete(t, k) => t == table && k == key,
    }
}

/// The value stored under a key of a table, if any.
pub open spec fn lookup(c: Contents, table: Seq<char>, key: Seq<u8>) -> Option<Seq<u8>> {
    if c.contains_key((table, key)) {
        Some(c[(table, key)])
    } else {
        None
    }
}

/// An optional byte vector, as bytes.
pub open spec fn opt_bytes(o: Option<Vec<u8>>) -> Option<Seq<u8>> {
    match o {
        Some(v) => Some(v@),
        None => None,
    }
}

/// Key-value pairs, as bytes.
pub open spec fn pairs_view(s: Seq<(Vec<u8>, Vec<u8>)>) -> Seq<(Seq<u8>, Seq<u8>)> {
    s.map_values(|e: (Vec<u8>, Vec<u8>)| (e.0@, e.1@))
}

/// `s` is every entry of `table` whose key starts with `prefix`, each once, in key order.
pub open spec fn scan_ok(
    c: Contents,
    table: Seq<char>,
    prefix: Seq<u8>,
    s: Seq<(Seq<u8>, Seq<u8>)>,
) -> bool {
    &&& forall|i: int, j: int| 0 <= i < j < s.len() ==> bytes_lt(#[trigger] s[i].0, #[trigger] s[j].0)
    &&& forall|i: int|
        0 <= i < s.len() ==> prefix.is_prefix_of(#[trigger] s[i].0) && lookup(c, table, s[i].0)
            == Some(s[i].1)
    &&& forall|k: Seq<u8>|
        #[trigger] c.contains_key((table, k)) && prefix.is_prefix_of(k) ==> exists|i: int|
            0 <= i < s.len() && #[trigger] s[i].0 == k
}

/// Whether some key of `table` starts with `prefix`.
pub open spec fn has_prefix(c: Contents, table: Seq<char>, prefix: Seq<u8>) -> bool {
    exists|k: Seq<u8>| #![trigger c.contains_key((table, k))] c.contains_key((table, k)) && prefix.is_prefix_of(k)
}

/// Errors a read can end in: the engine's, or stored bytes that do not decode.
pub open spec fn read_error(e: StorageError) -> bool {
    e is Engine || e is Corrupted
}

/// Some value that can be written encodes to these bytes.
pub open spec fn decodable<V: Encode>(bytes: Seq<u8>) -> bool {
    exists|v: V| v.encodable() && #[trigger] v.spec_encode() == bytes
}

/// What a read of stored bytes may give: nothing where nothing is stored, and else a value
/// that can be written, encodes to the bytes and is the same as every such value.
pub open spec fn item_ok<V: Decode>(stored: Option<Seq<u8>>, item: Option<V>) -> bool {
    match item {
        None => stored is None,
        Some(v) => {
            &&& stored == Some(v.spec_encode())
            &&& v.encodable()
            &&& forall|w: V| w.encodable() && #[trigger] w.spec_encode() == v.spec_encode() ==> v.spec_same(&w)
        },
    }
}

/// What a read of one key gives: an engine error; `Corrupted`, only where the stored bytes
/// decode to nothing; or what `item_ok` allows.
pub open spec fn read_ok<T: Table>(c: Contents, key: T::Key, r: Result<Option<T::Value>>) -> bool {
    let stored = lookup(c, T::spec_name(), key.spec_encode());
    match r {
        Err(e) => e is Engine || (e is Corrupted && stored is Some && !decodable::<T::Value>(stored->Some_0)),
        Ok(item) => item_ok(stored, item),
    }
}

/// One write waiting in a batch.
#[derive(Debug)]
pub enum Operation {
    Put { table: &'static str, key: Vec<u8>, value: Vec<u8> },
    Delete { table: &'static str, key: Vec<u8> },
}

impl View for Operation {
    type V = WriteView;

    open spec fn view(&self) -> WriteView {
        match self {
            Operation::Put { table, key, value } => WriteView::Put(table@, key@, value@),
            Operation::Delete { table, key } => WriteView::Delete(table@, key@),
        }
    }
}

/// A set of writes waiting to be applied together.
#[derive(Debug)]
pub struct Batch {
    operations: Vec<Operation>,
}

impl Default for Batch {
    fn default() -> (r: Batch)
        ensures
            r.writes() == Seq::<WriteView>::empty(),
    {
        Batch::new()
    }
}

impl Batch {
    /// The writes, in the order they were added.
    pub closed spec fn writes(&self) -> Seq<WriteView> {
        self.operations@.map_values(|o: Operation| o@)
    }

    pub fn new() -> (r: Batch)
        ensures
            r.writes() == Seq::<WriteView>::empty(),
    {
        let r = Batch { operations: Vec::new() };
        assert(r.writes() =~= Seq::<WriteView>::empty());
        r
    }

    pub fn len(&self) -> (r: usize)
        ensures
            r == self.writes().len(),
    {
        self.operations.len()
    }

    pub fn is_empty(&self) -> (r: bool)
        ensures
            r == (self.writes().len() == 0),
    {
        self.operations.len() == 0
    }

    /// Adds a write of `value` under `key` in table `T`.
    pub fn put<T: Table>(&mut self, key: &T::Key, value: &T::Value) -> (r: Result<()>)
        requires
            key.encodable(),
            value.encodable(),
        ensures
            r is Ok,
            final(self).writes() == old(self).writes().push(
                WriteView::Put(T::spec_name(), key.spec_encode(), value.spec_encode()),
            ),
    {
        self.operations.push(Operation::Put { table: T::name(), key: key.encode(), value: value.encode() });
        proof {
            assert(self.writes() =~= old(self).writes().push(
                WriteView::Put(T::spec_name(), key.spec_encode(), value.spec_encode()),
            ));
        }
        Ok(())
    }

    /// Adds a write of bytes the caller encoded, for a table with no `Table` of its own.
    pub fn put_raw(&mut self, table: &'static str, key: Vec<u8>, value: Vec<u8>)
        ensures
            final(self).writes() == old(self).writes().push(WriteView::Put(table@, key@, value@)),
    {
        let ghost w = WriteView::Put(table@, key@, value@);
        self.operations.push(Operation::Put { table, key, value });
        proof {
            assert(self.writes() =~= old(self).writes().push(w));
        }
    }

    /// Adds a deletion of a key the caller encoded.
    pub fn delete_raw(&mut self, table: &'static str, key: Vec<u8>)
        ensures
            final(self).writes() == old(self).writes().push(WriteView::Delete(table@, key@)),
    {
        let ghost w = WriteView::Delete(table@, key@);
        self.operations.push(Operation::Delete { table, key });
        proof {
            assert(self.writes() =~= old(self).writes().push(w));
        }
    }

    /// Adds a deletion of `key` in table `T`.
    pub fn delete<T: Table>(&mut self, key: &T::Key) -> (r: Result<()>)
        requires
            key.encodable(),
        ensures
            r is Ok,
            final(self).writes() == old(self).writes().push(
                WriteView::Delete(T::spec_name(), key.spec_encode()),
            ),
    {
        self.operations.push(Operation::Delete { table: T::name(), key: key.encode() });
        proof {
            assert(self.writes() =~= old(self).writes().push(
                WriteView::Delete(T::spec_name(), key.spec_encode()),
            ));
        }
        Ok(())
    }

    /// The writes, handed over to an engine that applies them.
    pub fn into_operations(self) -> (r: Vec<Operation>)
        ensures
            r@.map_values(|o: Operation| o@) == self.writes(),
    {
        self.operations
    }

    /// The writes, for an engine to apply.
    pub fn operations(&self) -> (r: &[Operation])
        ensures
            r@.map_values(|o: Operation| o@) == self.writes(),
    {
        self.operations.as_slice()
    }
}

/// Byte-oriented access to one database. Implemented once per engine.
///
/// An engine may fail any call, as a disk can; a call that succeeds does what its contract
/// says, and a failed commit writes nothing.
pub trait Database {
    /// Everything stored, by table name and key.
    spec fn contents(&self) -> Contents;

    /// The tables this database was opened with.
    spec fn tables(&self) -> Set<Seq<char>>;

    /// Whether this database holds the named table. It was opened with a fixed set.
    fn hosts(&self, table: &str) -> (r: bool)
        ensures
            r == self.tables().contains(table@),
    ;

    fn get_raw(&self, table: &str, key: &[u8]) -> (r: Result<Option<Vec<u8>>>)
        ensures
            r is Err ==> r->Err_0 is Engine,
            r is Ok ==> opt_bytes(r->Ok_0) == lookup(self.contents(), table@, key@),
    ;

    fn get_many_raw(&self, table: &str, keys: &[Vec<u8>]) -> (r: Result<Vec<Option<Vec<u8>>>>)
        ensures
            r is Err ==> r->Err_0 is Engine,
            r is Ok ==> {
                &&& r->Ok_0@.len() == keys@.len()
                &&& forall|i: int|
                    0 <= i < keys@.len() ==> opt_bytes(#[trigger] r->Ok_0@[i]) == lookup(
                        self.contents(),
                        table@,
                        keys@[i]@,
                    )
            },
    ;

    fn exists_raw(&self, table: &str, key: &[u8]) -> (r: Result<bool>)
        ensures
            r is Err ==> r->Err_0 is Engine,
            r is Ok ==> r->Ok_0 == self.contents().contains_key((table@, key@)),
    ;

    /// Every entry whose key starts with `prefix`, in key order.
    fn scan_raw(&self, table: &str, prefix: &[u8]) -> (r: Result<Vec<(Vec<u8>, Vec<u8>)>>)
        ensures
            r is Err ==> r->Err_0 is Engine,
            r is Ok ==> scan_ok(self.contents(), table@, prefix@, pairs_view(r->Ok_0@)),
    ;

    /// Applies a batch. Either every operation lands or none does.
    fn commit(&mut self, batch: Batch) -> (r: Result<()>)
        ensures
            r is Err ==> r->Err_0 is Engine,
            final(self).tables() == old(self).tables(),
            r is Ok ==> final(self).contents() == apply_all(old(self).contents(), batch.writes()),
            r is Err ==> final(self).contents() == old(self).contents(),
    ;

    /// Makes durable whatever the engine still holds in memory.
    fn flush(&mut self) -> (r: Result<()>)
        ensures
            r is Err ==> r->Err_0 is Engine,
            final(self).tables() == old(self).tables(),
            final(self).contents() == old(self).contents(),
    ;
}

/// One table on one database.
///
/// Opening a store checks that the database actually hosts the table, so a mistake in how the
/// node is wired together fails at startup rather than on the first write.
pub struct Store<T: Table, D: Database> {
    db: D,
    table: PhantomData<T>,
}

/// What a store says when its database does not host its table.
pub open spec fn not_hosted_message(table: Seq<char>) -> Seq<char> {
    "this database does not host the `"@ + table + "` table"@
}

/// `format!` of the refusal to open a store: the table is not in the database.
#[verifier::external_body]
pub(crate) fn not_hosted(table: &str) -> (r: String)
    ensures
        r@ == not_hosted_message(table@),
{
    format!("this database does not host the `{}` table", table)
}

impl<T: Table, D: Database> Store<T, D> {
    /// The database behind this store.
    pub closed spec fn spec_db(&self) -> D {
        self.db
    }

    /// The bytes stored under `key` in this store's table, if any.
    pub open spec fn stored(&self, key: T::Key) -> Option<Seq<u8>> {
        lookup(self.spec_db().contents(), T::spec_name(), key.spec_encode())
    }

    /// Fails, with an engine error naming the table, exactly when the database does not host
    /// the table.
    pub fn open(db: D) -> (r: Result<Store<T, D>>)
        ensures
            r is Ok <==> db.tables().contains(T::spec_name()),
            r is Ok ==> r->Ok_0.spec_db() == db,
            r is Err ==> r->Err_0 is Engine,
            r matches Err(StorageError::Engine(m)) ==> m@ == not_hosted_message(T::spec_name()),
    {
        if !db.hosts(T::name()) {
            return Err(StorageError::Engine(not_hosted(T::name())));
        }
        Ok(Store { db, table: PhantomData })
    }

    /// The database behind this store, for writing several tables together.
    pub fn database(&self) -> (r: &D)
        ensures
            *r == self.spec_db(),
    {
        &self.db
    }

    /// The database behind this store, for writing several tables together.
    pub fn database_mut(&mut self) -> (r: &mut D)
        ensures
            *r == old(self).spec_db(),
            final(self).spec_db() == *final(r),
    {
        &mut self.db
    }

    pub fn get(&self, key: &T::Key) -> (r: Result<Option<T::Value>>)
        requires
            key.encodable(),
        ensures
            read_ok::<T>(self.spec_db().contents(), *key, r),
    {
        read::<T, D>(&self.db, key)
    }

    /// One call for many keys, answered in the same order.
    pub fn get_many(&self, keys: &[T::Key]) -> (r: Result<Vec<Option<T::Value>>>)
        requires
            forall|i: int| 0 <= i < keys@.len() ==> (#[trigger] keys@[i]).encodable(),
        ensures
            r matches Err(e) ==> e is Engine || (e is Corrupted && exists|i: int|
                0 <= i < keys@.len() && #[trigger] self.stored(keys@[i]) is Some && !decodable::<T::Value>(
                    self.stored(keys@[i])->Some_0,
                )),
            r is Ok ==> {
                &&& r->Ok_0@.len() == keys@.len()
                &&& forall|i: int| 0 <= i < keys@.len() ==> item_ok(self.stored(keys@[i]), #[trigger] r->Ok_0@[i])
            },
    {
        let mut encoded: Vec<Vec<u8>> = Vec::new();
        let mut i: usize = 0;
        while i < keys.len()
            invariant
                i <= keys@.len(),
                encoded@.len() == i,
                forall|j: int| 0 <= j < i ==> (#[trigger] encoded@[j])@ == keys@[j].spec_encode(),
                forall|j: int| 0 <= j < keys@.len() ==> (#[trigger] keys@[j]).encodable(),
            decreases keys@.len() - i,
        {
            encoded.push(keys[i].encode());
            i = i + 1;
        }
        let found = match self.db.get_many_raw(T::name(), encoded.as_slice()) {
            Ok(found) => found,
            Err(e) => return Err(e),
        };
        let mut out: Vec<Option<T::Value>> = Vec::new();
        let mut j: usize = 0;
        while j < found.len()
            invariant
                found@.len() == keys@.len(),
                encoded@.len() == keys@.len(),
                forall|t: int| 0 <= t < keys@.len() ==> (#[trigger] encoded@[t])@ == keys@[t].spec_encode(),
                forall|t: int|
                    0 <= t < keys@.len() ==> opt_bytes(#[trigger] found@[t]) == lookup(
                        self.db.contents(),
                        T::spec_name(),
                        encoded@[t]@,
                    ),
                j <= found@.len(),
                out@.len() == j,
                forall|t: int| 0 <= t < j ==> item_ok(self.stored(keys@[t]), #[trigger] out@[t]),
            decreases found@.len() - j,
        {
            proof {
                assert(opt_bytes(found@[j as int]) == lookup(self.db.contents(), T::spec_name(), encoded@[j as int]@));
            }
            let item = match &found[j] {
                Some(bytes) => match T::Value::decode(bytes.as_slice()) {
                    Ok(v) => Some(v),
                    Err(e) => {
                        proof {
                            assert(self.stored(keys@[j as int]) is Some);
                        }
                        return Err(e);
                    },
                },
                None => None,
            };
            out.push(item);
            j = j + 1;
        }
        Ok(out)
    }

    pub fn exists_key(&self, key: &T::Key) -> (r: Result<bool>)
        requires
            key.encodable(),
        ensures
            r is Err ==> r->Err_0 is Engine,
            r is Ok ==> r->Ok_0 == self.stored(*key) is Some,
    {
        let k = key.encode();
        self.db.exists_raw(T::name(), k.as_slice())
    }

    /// Whether any key starts with `prefix`.
    pub fn exists_prefix(&self, prefix: &T::Prefix) -> (r: Result<bool>)
        requires
            prefix.encodable(),
        ensures
            r is Ok ==> r->Ok_0 == has_prefix(self.spec_db().contents(), T::spec_name(), prefix.spec_encode()),
            r is Err ==> r->Err_0 is Engine,
    {
        let p = prefix.encode();
        match self.db.scan_raw(T::name(), p.as_slice()) {
            Ok(entries) => {
                proof {
                    let s = pairs_view(entries@);
                    if entries@.len() > 0 {
                        assert(s[0].0 == entries@[0].0@);
                        assert(lookup(self.db.contents(), T::spec_name(), s[0].0) is Some);
                        assert(self.db.contents().contains_key((T::spec_name(), s[0].0)));
                        assert(prefix.spec_encode().is_prefix_of(s[0].0));
                        let k = s[0].0;
                        assert(self.spec_db().contents().contains_key((T::spec_name(), k)));
                    } else {
                        assert forall|k: Seq<u8>|
                            #![trigger self.db.contents().contains_key((T::spec_name(), k))]
                            !(self.db.contents().contains_key((T::spec_name(), k))
                                && p@.is_prefix_of(k)) by {
                            if self.db.contents().contains_key((T::spec_name(), k)) && p@.is_prefix_of(k) {
                                let i = choose|i: int| 0 <= i < s.len() && #[trigger] s[i].0 == k;
                            }
                        }
                    }
                }
                Ok(entries.len() > 0)
            },
            Err(e) => Err(e),
        }
    }

    /// Every value whose key starts with `prefix`, in key order. An empty prefix, which is
    /// what `()` encodes to, walks the whole table.
    pub fn scan(&self, prefix: &T::Prefix) -> (r: Result<Vec<T::Value>>)
        requires
            prefix.encodable(),
        ensures
            r matches Err(e) ==> e is Engine || (e is Corrupted && exists|k: Seq<u8>|
                #[trigger] self.spec_db().contents().contains_key((T::spec_name(), k)) && prefix.spec_encode().is_prefix_of(k)
                    && !decodable::<T::Value>(self.spec_db().contents()[(T::spec_name(), k)])),
            r is Ok ==> exists|s: Seq<(Seq<u8>, Seq<u8>)>|
                {
                    &&& scan_ok(self.spec_db().contents(), T::spec_name(), prefix.spec_encode(), s)
                    &&& s.len() == r->Ok_0@.len()
                    &&& forall|i: int| 0 <= i < s.len() ==> item_ok(Some(s[i].1), Some(#[trigger] r->Ok_0@[i]))
                },
    {
        let p = prefix.encode();
        let entries = match self.db.scan_raw(T::name(), p.as_slice()) {
            Ok(entries) => entries,
            Err(e) => return Err(e),
        };
        let ghost s = pairs_view(entries@);
        let mut out: Vec<T::Value> = Vec::new();
        let mut i: usize = 0;
        while i < entries.len()
            invariant
                s == pairs_view(entries@),
                scan_ok(self.db.contents(), T::spec_name(), prefix.spec_encode(), s),
                i <= entries@.len(),
                out@.len() == i,
                forall|j: int| 0 <= j < i ==> item_ok(Some(s[j].1), Some(#[trigger] out@[j])),
            decreases entries@.len() - i,
        {
            proof {
                assert(s[i as int].1 == entries@[i as int].1@);
            }
            match T::Value::decode(entries[i].1.as_slice()) {
                Ok(v) => out.push(v),
                Err(e) => {
                    proof {
                        let k = s[i as int].0;
                        assert(lookup(self.db.contents(), T::spec_name(), k) == Some(s[i as int].1));
                        assert(self.spec_db().contents().contains_key((T::spec_name(), k)));
                        assert(prefix.spec_encode().is_prefix_of(k));
                        assert(self.spec_db().contents()[(T::spec_name(), k)] == entries@[i as int].1@);
                        assert(!decodable::<T::Value>(self.spec_db().contents()[(T::spec_name(), k)]));
                    }
                    return Err(e);
                },
            }
            i = i + 1;
        }
        proof {
            assert(s.len() == out@.len());
        }
        Ok(out)
    }

    /// Writes one entry as its own commit.
    pub fn put(&mut self, key: &T::Key, value: &T::Value) -> (r: Result<()>)
        requires
            key.encodable(),
            value.encodable(),
        ensures
            r is Err ==> r->Err_0 is Engine,
            r is Ok ==> final(self).spec_db().contents() == old(self).spec_db().contents().insert(
                (T::spec_name(), key.spec_encode()),
                value.spec_encode(),
            ),
            r is Err ==> final(self).spec_db().contents() == old(self).spec_db().contents(),
            final(self).spec_db().tables() == old(self).spec_db().tables(),
    {
        let mut batch = Batch::new();
        let _ = batch.put::<T>(key, value);
        let ghost c = self.db.contents();
        proof {
            assert(batch.writes().drop_last() =~= Seq::<WriteView>::empty());
            assert(batch.writes().last() == WriteView::Put(T::spec_name(), key.spec_encode(), value.spec_encode()));
            assert(apply_all(c, Seq::<WriteView>::empty()) == c);
            assert(apply_all(c, batch.writes()) == c.insert((T::spec_name(), key.spec_encode()), value.spec_encode()));
        }
        self.commit(batch)
    }

    /// Deletes one entry as its own commit.
    pub fn delete(&mut self, key: &T::Key) -> (r: Result<()>)
        requires
            key.encodable(),
        ensures
            r is Err ==> r->Err_0 is Engine,
            r is Ok ==> final(self).spec_db().contents() == old(self).spec_db().contents().remove(
                (T::spec_name(), key.spec_encode()),
            ),
            r is Err ==> final(self).spec_db().contents() == old(self).spec_db().contents(),
            final(self).spec_db().tables() == old(self).spec_db().tables(),
    {
        let mut batch = Batch::new();
        let _ = batch.delete::<T>(key);
        let ghost c = self.db.contents();
        proof {
            assert(batch.writes().drop_last() =~= Seq::<WriteView>::empty());
            assert(batch.writes().last() == WriteView::Delete(T::spec_name(), key.spec_encode()));
            assert(apply_all(c, Seq::<WriteView>::empty()) == c);
            assert(apply_all(c, batch.writes()) == c.remove((T::spec_name(), key.spec_encode())));
        }
        self.commit(batch)
    }

    /// Applies a batch in one step: all of it or, on an engine error, none.
    pub fn commit(&mut self, batch: Batch) -> (r: Result<()>)
        ensures
            r is Err ==> r->Err_0 is Engine,
            r is Ok ==> final(self).spec_db().contents() == apply_all(
                old(self).spec_db().contents(),
                batch.writes(),
            ),
            r is Err ==> final(self).spec_db().contents() == old(self).spec_db().contents(),
            final(self).spec_db().tables() == old(self).spec_db().tables(),
    {
        self.db.commit(batch)
    }

    /// What a write does once its changes have run on `batch`: an error of theirs is returned
    /// and nothing is written; otherwise the batch is committed in one step and their value
    /// returned, unless the commit fails.
    pub fn commit_outcome<R>(&mut self, batch: Batch, outcome: Result<R>) -> (r: Result<R>)
        ensures
            final(self).spec_db().tables() == old(self).spec_db().tables(),
            match outcome {
                Err(e) => r == Err::<R, StorageError>(e) && final(self).spec_db().contents() == old(
                    self,
                ).spec_db().contents(),
                Ok(v) => match r {
                    Ok(w) => w == v && final(self).spec_db().contents() == apply_all(
                        old(self).spec_db().contents(),
                        batch.writes(),
                    ),
                    Err(e) => e is Engine && final(self).spec_db().contents() == old(self).spec_db().contents(),
                },
            },
    {
        match outcome {
            Err(e) => Err(e),
            Ok(v) => match self.commit(batch) {
                Ok(()) => Ok(v),
                Err(e) => Err(e),
            },
        }
    }

    /// Several writes to this table, applied together. The changes run on an empty batch; if
    /// they return an error, it is returned and nothing is written; if they return a value,
    /// the writes they put in the batch, in order, are committed in one step and the value is
    /// returned, unless the commit fails with an engine error and writes nothing.
    pub fn write<R, F: FnOnce(&mut Batch) -> Result<R>>(&mut self, changes: F) -> (r: Result<R>)
        requires
            forall|b: &mut Batch| changes.requires((b,)),
        ensures
            final(self).spec_db().tables() == old(self).spec_db().tables(),
            r is Err ==> final(self).spec_db().contents() == old(self).spec_db().contents(),
            r is Ok ==> exists|ws: Seq<WriteView>|
                final(self).spec_db().contents() == apply_all(old(self).spec_db().contents(), ws),
            exists|w: &mut Batch, o: Result<R>|
                {
                    &&& (*w).writes() == Seq::<WriteView>::empty()
                    &&& call_ensures(changes, (w,), o)
                    &&& match o {
                        Err(e) => r == Err::<R, StorageError>(e) && final(self).spec_db().contents() == old(
                            self,
                        ).spec_db().contents(),
                        Ok(v) => (r == Ok::<R, StorageError>(v) && final(self).spec_db().contents() == apply_all(
                            old(self).spec_db().contents(),
                            final(w).writes(),
                        )) || (r matches Err(StorageError::Engine(_)) && final(self).spec_db().contents() == old(
                            self,
                        ).spec_db().contents()),
                    }
                },
    {
        let mut batch = Batch::new();
        let outcome = changes(&mut batch);
        self.commit_outcome(batch, outcome)
    }
}

/// Reads `key` of table `T` from a database.
pub fn read<T: Table, D: Database>(db: &D, key: &T::Key) -> (r: Result<Option<T::Value>>)
    requires
        key.encodable(),
    ensures
        read_ok::<T>(db.contents(), *key, r),
{
    let k = key.encode();
    match db.get_raw(T::name(), k.as_slice()) {
        Ok(Some(bytes)) => match T::Value::decode(bytes.as_slice()) {
            Ok(v) => Ok(Some(v)),
            Err(e) => Err(e),
        },
        Ok(None) => Ok(None),
        Err(e) => Err(e),
    }
}

/// What a store reads back after a write: the written value's bytes under the written key,
/// and what was there before under every other key. A read of the written key gives back
/// the value written, or an engine error: never `Corrupted`, never nothing.
pub proof fn lemma_read_after_put<T: Table, D: Database>(
    before: Store<T, D>,
    after: Store<T, D>,
    key: T::Key,
    other: T::Key,
    value: T::Value,
    r: Result<Option<T::Value>>,
)
    requires
        value.encodable(),
        after.spec_db().contents() == before.spec_db().contents().insert(
            (T::spec_name(), key.spec_encode()),
            value.spec_encode(),
        ),
    ensures
        after.stored(key) == Some(value.spec_encode()),
        other != key ==> after.stored(other) == before.stored(other),
        read_ok::<T>(after.spec_db().contents(), key, r) ==> {
            &&& r is Err ==> r->Err_0 is Engine
            &&& r is Ok ==> r->Ok_0 is Some && r->Ok_0->Some_0.spec_same(&value)
        },
{
    T::lemma_key_injective(key, other);
    assert(decodable::<T::Value>(value.spec_encode()));
}

/// Writes apply in the order they were made: where a key's last write is a deletion, the key
/// is absent afterwards, whatever was written to it before (an output created and spent in
/// one block ends up absent).
pub proof fn lemma_later_delete_wins(c: Contents, ws: Seq<WriteView>, i: int, table: Seq<char>, key: Seq<u8>)
    requires
        0 <= i < ws.len(),
        ws[i] == WriteView::Delete(table, key),
        forall|j: int| i < j < ws.len() ==> !touches(#[trigger] ws[j], table, key),
    ensures
        lookup(apply_all(c, ws), table, key) is None,
{
    let a = ws.take(i + 1);
    let b = ws.skip(i + 1);
    assert(ws =~= a + b);
    lemma_apply_all_concat(c, a, b);
    assert(a.drop_last() =~= ws.take(i));
    assert(a.last() == ws[i]);
    assert forall|j: int| 0 <= j < b.len() implies !touches(#[trigger] b[j], table, key) by {
        assert(b[j] == ws[i + 1 + j]);
    }
    lemma_apply_all_untouched(apply_all(c, a), b, table, key);
}

/// A batch read and a single read of one key agree: both find nothing, or both find values
/// that read back alike.
pub proof fn lemma_get_many_agrees_with_get<T: Table>(
    c: Contents,
    key: T::Key,
    item: Option<T::Value>,
    one: Option<T::Value>,
)
    requires
        item_ok(lookup(c, T::spec_name(), key.spec_encode()), item),
        read_ok::<T>(c, key, Ok(one)),
    ensures
        item is None <==> one is None,
        item is Some && one is Some ==> item->Some_0.spec_same(&one->Some_0),
{
}

/// A deleted key reads back as absent, and every other key as before.
pub proof fn lemma_read_after_delete<T: Table, D: Database>(
    before: Store<T, D>,
    after: Store<T, D>,
    key: T::Key,
    other: T::Key,
)
    requires
        after.spec_db().contents() == before.spec_db().contents().remove(
            (T::spec_name(), key.spec_encode()),
        ),
    ensures
        after.stored(key) is None,
        other != key ==> after.stored(other) == before.stored(other),
{
    T::lemma_key_injective(key, other);
}

} // verus!
