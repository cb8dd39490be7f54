//! A database held in memory: every write it applied, in order, with the latest write to a
//! key deciding what the key holds.

use vstd::prelude::*;

use crate::bytes::{
    byte_order, copy_bytes, str_eq, bytes_lt, lemma_bytes_lt_irreflexive, lemma_bytes_lt_total,
    lemma_bytes_lt_transitive, starts_with,
};
use crate::storage::db::{
    apply, apply_all, lemma_apply_all_concat, lemma_apply_all_untouched, lookup, opt_bytes,
    pairs_view, scan_ok, touches, Batch, Contents, Database, Operation, Profile, WriteView,
};
use crate::storage::error::{Result, StorageError};

verus! {

/// An engine that keeps everything in memory and loses it when dropped.
pub struct MemoryDb {
    tables: Vec<&'static str>,
    log: Vec<Operation>,
}

impl MemoryDb {
    /// The writes applied so far.
    pub closed spec fn writes(&self) -> Seq<WriteView> {
        self.log@.map_values(|o: Operation| o@)
    }

    /// A database hosting the given tables, with nothing stored.
    pub fn new(tables: &[(&'static str, Profile)]) -> (r: MemoryDb)
        ensures
            r.contents() == Map::<(Seq<char>, Seq<u8>), Seq<u8>>::empty(),
            forall|t: Seq<char>| #[trigger] r.tables().contains(t) <==> exists|i: int|
                0 <= i < tables@.len() && (#[trigger] tables@[i]).0@ == t,
    {
        let mut names: Vec<&'static str> = Vec::new();
        let mut i: usize = 0;
        while i < tables.len()
            invariant
                i <= tables@.len(),
                names@.len() == i,
                forall|j: int| 0 <= j < i ==> (#[trigger] names@[j])@ == tables@[j].0@,
            decreases tables@.len() - i,
        {
            names.push(tables[i].0);
            i = i + 1;
        }
        let r = MemoryDb { tables: names, log: Vec::new() };
        proof {
            assert(r.writes() =~= Seq::<WriteView>::empty());
            assert forall|t: Seq<char>| #[trigger] r.tables().contains(t) <==> exists|i: int|
                0 <= i < tables@.len() && (#[trigger] tables@[i]).0@ == t by {
                if r.tables().contains(t) {
                    let j = choose|j: int| 0 <= j < names@.len() && (#[trigger] names@[j])@ == t;
                    assert(tables@[j].0@ == t);
                }
                if exists|i: int| 0 <= i < tables@.len() && (#[trigger] tables@[i]).0@ == t {
                    let j = choose|j: int| 0 <= j < tables@.len() && (#[trigger] tables@[j]).0@ == t;
                    assert(names@[j]@ == t);
                }
            }
        }
        r
    }

    /// The value of the latest write to `key` of `table`, searching the log backwards.
    fn latest(&self, table: &str, key: &[u8]) -> (r: Option<Vec<u8>>)
        ensures
            opt_bytes(r) == lookup(self.contents(), table@, key@),
    {
        let ghost ws = self.writes();
        let mut i = self.log.len();
        proof {
            assert(ws.take(ws.len() as int) =~= ws);
        }
        while i > 0
            invariant
                ws == self.writes(),
                i <= ws.len(),
                lookup(self.contents(), table@, key@) == lookup(
                    apply_all(Map::empty(), ws.take(i as int)),
                    table@,
                    key@,
                ),
            decreases i,
        {
            i = i - 1;
            proof {
                assert(ws.take(i + 1).drop_last() =~= ws.take(i as int));
                assert(ws.take(i + 1).last() == ws[i as int]);
            }
            match &self.log[i] {
                Operation::Put { table: t, key: k, value } => {
                    if str_eq(t, table) && byte_order(k.as_slice(), key) == 0 {
                        return Some(copy_bytes(value.as_slice()));
                    }
                },
                Operation::Delete { table: t, key: k } => {
                    if str_eq(t, table) && byte_order(k.as_slice(), key) == 0 {
                        return None;
                    }
                },
            }
        }
        proof {
            assert(ws.take(0) =~= Seq::<WriteView>::empty());
        }
        None
    }
}

/// A key holds a value only if some write put it there.
proof fn lemma_written(ws: Seq<WriteView>, table: Seq<char>, key: Seq<u8>)
    requires
        apply_all(Map::empty(), ws).contains_key((table, key)),
    ensures
        exists|i: int| 0 <= i < ws.len() && touches(#[trigger] ws[i], table, key),
{
    if forall|i: int| 0 <= i < ws.len() ==> !touches(#[trigger] ws[i], table, key) {
        lemma_apply_all_untouched(Map::empty(), ws, table, key);
    }
}

impl Database for MemoryDb {
    closed spec fn contents(&self) -> Contents {
        apply_all(Map::empty(), self.writes())
    }

    closed spec fn tables(&self) -> Set<Seq<char>> {
        Set::new(|t: Seq<char>| exists|i: int| 0 <= i < self.tables@.len() && (#[trigger] self.tables@[i])@ == t)
    }

    fn hosts(&self, table: &str) -> (r: bool) {
        let mut i: usize = 0;
        while i < self.tables.len()
            invariant
                i <= self.tables@.len(),
                forall|j: int| 0 <= j < i ==> (#[trigger] self.tables@[j])@ != table@,
            decreases self.tables@.len() - i,
        {
            if str_eq(self.tables[i], table) {
                return true;
            }
            i = i + 1;
        }
        false
    }

    fn get_raw(&self, table: &str, key: &[u8]) -> (r: Result<Option<Vec<u8>>>)
        ensures
            r is Ok,
    {
        Ok(self.latest(table, key))
    }

    fn get_many_raw(&self, table: &str, keys: &[Vec<u8>]) -> (r: Result<Vec<Option<Vec<u8>>>>)
        ensures
            r is Ok,
    {
        let mut out: Vec<Option<Vec<u8>>> = Vec::new();
        let mut i: usize = 0;
        while i < keys.len()
            invariant
                i <= keys@.len(),
                out@.len() == i,
                forall|j: int|
                    0 <= j < i ==> opt_bytes(#[trigger] out@[j]) == lookup(self.contents(), table@, keys@[j]@),
            decreases keys@.len() - i,
        {
            out.push(self.latest(table, keys[i].as_slice()));
            i = i + 1;
        }
        Ok(out)
    }

    fn exists_raw(&self, table: &str, key: &[u8]) -> (r: Result<bool>)
        ensures
            r is Ok,
    {
        Ok(self.latest(table, key).is_some())
    }

    fn scan_raw(&self, table: &str, prefix: &[u8]) -> (r: Result<Vec<(Vec<u8>, Vec<u8>)>>)
        ensures
            r is Ok,
    {
        let ghost ws = self.writes();
        let ghost c = self.contents();
        // Every key of the table with the prefix that some write touched, sorted.
        let mut keys: Vec<Vec<u8>> = Vec::new();
        let mut i: usize = 0;
        while i < self.log.len()
            invariant
                ws == self.writes(),
                i <= ws.len(),
                forall|a: int, b: int| 0 <= a < b < keys@.len() ==> bytes_lt(#[trigger] keys@[a]@, #[trigger] keys@[b]@),
                forall|a: int| 0 <= a < keys@.len() ==> prefix@.is_prefix_of(#[trigger] keys@[a]@),
                forall|j: int, k: Seq<u8>|
                    0 <= j < i && #[trigger] touches(ws[j], table@, k) && prefix@.is_prefix_of(k)
                        ==> exists|a: int| 0 <= a < keys@.len() && #[trigger] keys@[a]@ == k,
            decreases ws.len() - i,
        {
            let (t, k) = match &self.log[i] {
                Operation::Put { table: t, key: k, .. } => (t, k),
                Operation::Delete { table: t, key: k } => (t, k),
            };
            let ghost before = keys@;
            if str_eq(t, table) && starts_with(k.as_slice(), prefix) {
                insert_sorted(&mut keys, k.as_slice());
                proof {
                    assert forall|a: int| 0 <= a < keys@.len() implies prefix@.is_prefix_of(#[trigger] keys@[a]@) by {
                        if keys@[a]@ != k@ {
                            let b = choose|b: int| 0 <= b < before.len() && #[trigger] before[b]@ == keys@[a]@;
                        }
                    }
                }
            }
            proof {
                assert forall|j: int, kk: Seq<u8>|
                    0 <= j < i + 1 && #[trigger] touches(ws[j], table@, kk) && prefix@.is_prefix_of(kk)
                        implies exists|a: int| 0 <= a < keys@.len() && #[trigger] keys@[a]@ == kk by {
                    assert(ws[j] == self.log@[j]@);
                    if j == i {
                        assert(kk == k@);
                    } else {
                        let a = choose|a: int| 0 <= a < before.len() && #[trigger] before[a]@ == kk;
                        if keys@ != before {
                            assert(exists|b: int| 0 <= b < keys@.len() && #[trigger] keys@[b]@ == before[a]@);
                        }
                    }
                }
            }
            i = i + 1;
        }
        let mut out: Vec<(Vec<u8>, Vec<u8>)> = Vec::new();
        let mut a: usize = 0;
        while a < keys.len()
            invariant
                c == self.contents(),
                a <= keys@.len(),
                forall|x: int, y: int| 0 <= x < y < keys@.len() ==> bytes_lt(#[trigger] keys@[x]@, #[trigger] keys@[y]@),
                forall|x: int| 0 <= x < keys@.len() ==> prefix@.is_prefix_of(#[trigger] keys@[x]@),
                forall|x: int, y: int|
                    0 <= x < pairs_view(out@).len() && a <= y < keys@.len() ==> bytes_lt(
                        #[trigger] pairs_view(out@)[x].0,
                        #[trigger] keys@[y]@,
                    ),
                forall|x: int, y: int|
                    0 <= x < y < pairs_view(out@).len() ==> bytes_lt(
                        #[trigger] pairs_view(out@)[x].0,
                        #[trigger] pairs_view(out@)[y].0,
                    ),
                forall|x: int|
                    0 <= x < pairs_view(out@).len() ==> prefix@.is_prefix_of(#[trigger] pairs_view(out@)[x].0)
                        && lookup(c, table@, pairs_view(out@)[x].0) == Some(pairs_view(out@)[x].1),
                forall|x: int|
                    0 <= x < a && #[trigger] c.contains_key((table@, keys@[x]@)) ==> exists|y: int|
                        0 <= y < pairs_view(out@).len() && #[trigger] pairs_view(out@)[y].0 == keys@[x]@,
            decreases keys@.len() - a,
        {
            let ghost before = out@;
            match self.latest(table, keys[a].as_slice()) {
                Some(v) => {
                    let k = copy_bytes(keys[a].as_slice());
                    out.push((k, v));
                    proof {
                        assert(pairs_view(out@) =~= pairs_view(before).push((keys@[a as int]@, v@)));
                        assert forall|x: int, y: int|
                            0 <= x < pairs_view(out@).len() && a + 1 <= y < keys@.len() implies bytes_lt(
                            #[trigger] pairs_view(out@)[x].0,
                            #[trigger] keys@[y]@,
                        ) by {
                            if x < pairs_view(before).len() {
                                assert(pairs_view(out@)[x] == pairs_view(before)[x]);
                            }
                        }
                        assert forall|x: int|
                            0 <= x < a + 1 && #[trigger] c.contains_key((table@, keys@[x]@)) implies exists|y: int|
                            0 <= y < pairs_view(out@).len() && #[trigger] pairs_view(out@)[y].0 == keys@[x]@ by {
                            if x < a {
                                let y = choose|y: int|
                                    0 <= y < pairs_view(before).len() && #[trigger] pairs_view(before)[y].0 == keys@[x]@;
                                assert(pairs_view(out@)[y] == pairs_view(before)[y]);
                            } else {
                                assert(pairs_view(out@)[pairs_view(out@).len() - 1].0 == keys@[x]@);
                            }
                        }
                    }
                },
                None => {
                    proof {
                        assert(pairs_view(out@) == pairs_view(before));
                    }
                },
            }
            a = a + 1;
        }
        proof {
            let s = pairs_view(out@);
            assert forall|k: Seq<u8>|
                #[trigger] c.contains_key((table@, k)) && prefix@.is_prefix_of(k) implies exists|y: int|
                0 <= y < s.len() && #[trigger] s[y].0 == k by {
                lemma_written(ws, table@, k);
                let j = choose|j: int| 0 <= j < ws.len() && touches(#[trigger] ws[j], table@, k);
                let x = choose|x: int| 0 <= x < keys@.len() && #[trigger] keys@[x]@ == k;
                assert(c.contains_key((table@, keys@[x]@)));
            }
            assert(scan_ok(c, table@, prefix@, s));
        }
        Ok(out)
    }

    fn commit(&mut self, batch: Batch) -> (r: Result<()>)
        ensures
            r is Ok <==> all_hosted(old(self).tables(), batch.writes()),
    {
        let ghost w0 = self.writes();
        let ghost bw = batch.writes();
        let mut ops = batch.into_operations();
        let mut i: usize = 0;
        while i < ops.len()
            invariant
                *self == *old(self),
                bw == batch.writes(),
                w0 == old(self).writes(),
                ops@.map_values(|o: Operation| o@) == bw,
                i <= ops@.len(),
                forall|j: int| 0 <= j < i ==> self.tables().contains(written_table(#[trigger] bw[j])),
            decreases ops@.len() - i,
        {
            let t = match &ops[i] {
                Operation::Put { table, .. } => *table,
                Operation::Delete { table, .. } => *table,
            };
            if !self.hosts(t) {
                proof {
                    assert(written_table(bw[i as int]) == t@);
                    assert(!old(self).tables().contains(written_table(bw[i as int])));
                    assert(!all_hosted(old(self).tables(), bw));
                }
                return Err(StorageError::Engine("a write names a table this database does not host".to_owned()));
            }
            proof {
                assert(written_table(bw[i as int]) == t@);
            }
            i = i + 1;
        }
        self.log.append(&mut ops);
        proof {
            assert(self.writes() =~= w0 + bw);
            lemma_apply_all_concat(Map::empty(), w0, bw);
        }
        Ok(())
    }

    fn flush(&mut self) -> (r: Result<()>) {
        Ok(())
    }
}

/// Every write is to a table in `tables`.
pub open spec fn all_hosted(tables: Set<Seq<char>>, ws: Seq<WriteView>) -> bool {
    forall|i: int| 0 <= i < ws.len() ==> tables.contains(written_table(#[trigger] ws[i]))
}

/// The table a write is to.
pub open spec fn written_table(w: WriteView) -> Seq<char> {
    match w {
        WriteView::Put(t, _, _) => t,
        WriteView::Delete(t, _) => t,
    }
}

/// Inserts `k` into a strictly sorted list of keys, unless it is there already.
fn insert_sorted(keys: &mut Vec<Vec<u8>>, k: &[u8])
    requires
        forall|a: int, b: int|
            0 <= a < b < old(keys)@.len() ==> bytes_lt(#[trigger] old(keys)@[a]@, #[trigger] old(keys)@[b]@),
    ensures
        forall|a: int, b: int|
            0 <= a < b < final(keys)@.len() ==> bytes_lt(#[trigger] final(keys)@[a]@, #[trigger] final(keys)@[b]@),
        forall|a: int|
            0 <= a < old(keys)@.len() ==> exists|b: int|
                0 <= b < final(keys)@.len() && #[trigger] final(keys)@[b]@ == (#[trigger] old(keys)@[a])@,
        exists|b: int| 0 <= b < final(keys)@.len() && #[trigger] final(keys)@[b]@ == k@,
        forall|b: int|
            0 <= b < final(keys)@.len() ==> (#[trigger] final(keys)@[b])@ == k@ || exists|a: int|
                0 <= a < old(keys)@.len() && #[trigger] old(keys)@[a]@ == final(keys)@[b]@,
{
    let mut p: usize = 0;
    let mut done = false;
    let mut present = false;
    while !done
        invariant
            *keys == *old(keys),
            p <= keys@.len(),
            forall|a: int| 0 <= a < p ==> bytes_lt(#[trigger] keys@[a]@, k@),
            present ==> done,
            done ==> (present ==> p < keys@.len() && keys@[p as int]@ == k@),
            done ==> (!present ==> (p == keys@.len() || bytes_lt(k@, keys@[p as int]@))),
        decreases keys@.len() - p, if done { 0nat } else { 1nat },
    {
        if p == keys.len() {
            done = true;
        } else {
            let o = byte_order(keys[p].as_slice(), k);
            if o == 0 {
                present = true;
                done = true;
            } else if o == 1 {
                done = true;
            } else {
                p = p + 1;
            }
        }
    }
    if present {
        proof {
            assert forall|a: int| 0 <= a < old(keys)@.len() implies exists|b: int|
                0 <= b < keys@.len() && #[trigger] keys@[b]@ == (#[trigger] old(keys)@[a])@ by {
                assert(keys@[a]@ == old(keys)@[a]@);
            }
        }
        return;
    }
    let ghost old_keys = keys@;
    let copy = copy_bytes(k);
    keys.insert(p, copy);
    proof {
        assert forall|a: int, b: int| 0 <= a < b < keys@.len() implies bytes_lt(
            #[trigger] keys@[a]@,
            #[trigger] keys@[b]@,
        ) by {
            if b < p {
            } else if b == p {
            } else if a < p {
                assert(keys@[b] == old_keys[b - 1]);
                if b - 1 > p {
                    lemma_bytes_lt_transitive(k@, old_keys[p as int]@, old_keys[b - 1]@);
                }
                lemma_bytes_lt_transitive(keys@[a]@, k@, keys@[b]@);
            } else if a == p {
                assert(keys@[b] == old_keys[b - 1]);
                if b - 1 > p {
                    lemma_bytes_lt_transitive(k@, old_keys[p as int]@, old_keys[b - 1]@);
                }
            } else {
                assert(keys@[a] == old_keys[a - 1] && keys@[b] == old_keys[b - 1]);
            }
        }
        assert forall|a: int| 0 <= a < old_keys.len() implies exists|b: int|
            0 <= b < keys@.len() && #[trigger] keys@[b]@ == (#[trigger] old_keys[a])@ by {
            if a >= p {
                assert(keys@[a + 1]@ == old_keys[a]@);
            } else {
                assert(keys@[a]@ == old_keys[a]@);
            }
        }
        assert(keys@[p as int]@ == k@);
        assert forall|b: int| 0 <= b < keys@.len() implies (#[trigger] keys@[b])@ == k@ || exists|a: int|
            0 <= a < old_keys.len() && #[trigger] old_keys[a]@ == keys@[b]@ by {
            if b > p {
                assert(old_keys[b - 1]@ == keys@[b]@);
            } else if b < p {
                assert(old_keys[b]@ == keys@[b]@);
            }
        }
    }
}

} // verus!
