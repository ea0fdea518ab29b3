use vstd::prelude::*;

use crate::allocator::Allocator;
use crate::header::{be_value, u64_from_be};

verus! {

/// One remote shard: its identifier's bytes, and how many bytes of its
/// capacity are taken, as far as this side knows.
pub struct Bucket {
    pub id: Vec<u8>,
    pub used: u64,
}

/// `a` comes before `b` in dictionary order; both have the same length.
pub open spec fn lex_less(a: Seq<u8>, b: Seq<u8>) -> bool {
    exists|i: int|
        0 <= i < a.len() && i < b.len() && #[trigger] a[i] < b[i] && forall|k: int|
            0 <= k < i ==> #[trigger] a[k] == b[k]
}

/// The order of shard identifiers: shorter ones first, then dictionary order.
pub open spec fn id_less(a: Seq<u8>, b: Seq<u8>) -> bool {
    a.len() < b.len() || (a.len() == b.len() && lex_less(a, b))
}

/// The identifier order is transitive.
pub proof fn lemma_id_less_transitive(a: Seq<u8>, b: Seq<u8>, c: Seq<u8>)
    requires
        id_less(a, b),
        id_less(b, c),
    ensures
        id_less(a, c),
{
    if a.len() == b.len() && b.len() == c.len() {
        let i = choose|i: int|
            0 <= i < a.len() && i < b.len() && #[trigger] a[i] < b[i] && forall|k: int|
                0 <= k < i ==> #[trigger] a[k] == b[k];
        let j = choose|j: int|
            0 <= j < b.len() && j < c.len() && #[trigger] b[j] < c[j] && forall|k: int|
                0 <= k < j ==> #[trigger] b[k] == c[k];
        let m = if i < j { i } else { j };
        assert(a[m] < c[m]);
        assert forall|k: int| 0 <= k < m implies #[trigger] a[k] == c[k] by {
            assert(a[k] == b[k]);
            assert(b[k] == c[k]);
        }
    }
}

/// No identifier comes before itself, and of two identifiers at most one
/// comes first.
pub proof fn lemma_id_less_asymmetric(a: Seq<u8>, b: Seq<u8>)
    ensures
        id_less(a, b) ==> !id_less(b, a),
{
    if id_less(a, b) && id_less(b, a) {
        let i = choose|i: int|
            0 <= i < a.len() && i < b.len() && #[trigger] a[i] < b[i] && forall|k: int|
                0 <= k < i ==> #[trigger] a[k] == b[k];
        let j = choose|j: int|
            0 <= j < b.len() && j < a.len() && #[trigger] b[j] < a[j] && forall|k: int|
                0 <= k < j ==> #[trigger] b[k] == a[k];
        if i < j {
            assert(b[i] == a[i]);
        } else if j < i {
            assert(a[j] == b[j]);
        }
    }
}

/// Compares two identifiers: negative, zero or positive as `a` comes
/// before, equals or comes after `b`.
pub fn compare_ids(a: &Vec<u8>, b: &Vec<u8>) -> (r: i8)
    ensures
        r < 0 <==> id_less(a@, b@),
        r == 0 <==> a@ == b@,
        r > 0 <==> id_less(b@, a@),
{
    proof {
        lemma_id_less_asymmetric(a@, b@);
    }
    if a.len() < b.len() {
        return -1;
    }
    if a.len() > b.len() {
        return 1;
    }
    let n = a.len();
    let mut i: usize = 0;
    while i < n
        invariant
            n == a@.len() == b@.len(),
            i <= n,
            forall|k: int| 0 <= k < i ==> #[trigger] a@[k] == b@[k],
        decreases n - i,
    {
        if a[i] != b[i] {
            proof {
                if a@ == b@ {
                    assert(a@[i as int] == b@[i as int]);
                }
            }
            if a[i] < b[i] {
                assert(a@[i as int] < b@[i as int]);
                return -1;
            } else {
                assert(b@[i as int] < a@[i as int]);
                assert forall|k: int| 0 <= k < i implies #[trigger] b@[k] == a@[k] by {
                    assert(a@[k] == b@[k]);
                }
                return 1;
            }
        }
        i = i + 1;
    }
    assert(a@ =~= b@);
    proof {
        if lex_less(a@, b@) {
            let j = choose|j: int|
                0 <= j < a@.len() && j < b@.len() && #[trigger] a@[j] < b@[j] && forall|k: int|
                    0 <= k < j ==> #[trigger] a@[k] == b@[k];
            assert(a@[j] == b@[j]);
        }
    }
    0
}

fn copy_bytes(v: &Vec<u8>) -> (r: Vec<u8>)
    ensures
        r@ == v@,
{
    let mut r: Vec<u8> = Vec::new();
    let mut i: usize = 0;
    while i < v.len()
        invariant
            i <= v@.len(),
            r@ == v@.subrange(0, i as int),
        decreases v@.len() - i,
    {
        r.push(v[i]);
        i = i + 1;
        assert(r@ =~= v@.subrange(0, i as int));
    }
    assert(r@ =~= v@);
    r
}

/// The bucket table's entries are sorted by identifier, so no identifier
/// appears twice.
pub open spec fn table_sorted(t: Seq<(Seq<u8>, u64)>) -> bool {
    forall|i: int, j: int| 0 <= i < j < t.len() ==> id_less(#[trigger] t[i].0, #[trigger] t[j].0)
}

/// `t2` is `t` with `id` recorded as using `used` bytes: the entry is replaced
/// where `id` is present, and inserted in order where it is not.
pub open spec fn table_set(t: Seq<(Seq<u8>, u64)>, id: Seq<u8>, used: u64, t2: Seq<(Seq<u8>, u64)>) -> bool {
    exists|p: int|
        0 <= p <= t.len() && (forall|k: int| 0 <= k < p ==> id_less(#[trigger] t[k].0, id)) && (
        if p < t.len() && t[p].0 == id {
            t2 == t.update(p, (id, used))
        } else {
            (forall|k: int| p <= k < t.len() ==> id_less(id, #[trigger] t[k].0)) && t2 == t.insert(
                p,
                (id, used),
            )
        })
}

/// Entry `i` is the first one whose shard has room left under `max`.
pub open spec fn first_with_room(t: Seq<(Seq<u8>, u64)>, max: u64, i: int) -> bool {
    &&& 0 <= i < t.len()
    &&& t[i].1 < max
    &&& forall|k: int| 0 <= k < i ==> #[trigger] t[k].1 >= max
}

/// With an empty bucket table, recording one new shard with nothing used
/// gives a table of exactly that shard, and it is the one the next write
/// selects whenever shards have any capacity.
pub proof fn lemma_provision_then_select(t: Seq<(Seq<u8>, u64)>, id: Seq<u8>, t2: Seq<(Seq<u8>, u64)>, max: u64)
    requires
        t.len() == 0,
        table_set(t, id, 0, t2),
        max > 0,
    ensures
        t2 == seq![(id, 0u64)],
        first_with_room(t2, max, 0),
{
    assert(t.insert(0, (id, 0u64)) =~= seq![(id, 0u64)]);
}

/// Why a shard's answer to a write could not be recorded.
#[derive(Clone, Copy, Debug, PartialEq, Eq, Structural)]
pub enum ShardError {
    /// The answer does not hold exactly eight bytes.
    MalformedOffset,
    /// The offset plus the blob's length does not fit in 64 bits.
    OffsetOverflow,
}

/// The state kept in durable memory: the remote shards' bucket table and the
/// allocator of the durable region.
pub struct Storage {
    pub buckets: Vec<Bucket>,
    pub allocator: Allocator,
}

impl Storage {
    /// The bucket table: each shard's identifier and used bytes, in order.
    pub open spec fn table(&self) -> Seq<(Seq<u8>, u64)> {
        self.buckets@.map_values(|b: Bucket| (b.id@, b.used))
    }

    pub open spec fn wf(&self) -> bool {
        &&& table_sorted(self.table())
        &&& self.allocator.wf()
    }

    /// An empty bucket table, with a fresh allocator.
    pub fn new() -> (r: Storage)
        ensures
            r.wf(),
            r.table() == Seq::<(Seq<u8>, u64)>::empty(),
            r.allocator.spec_segments() == Seq::<(u64, u64)>::empty(),
            r.allocator.spec_boundary() == crate::allocator::INITIAL_OFFSET,
    {
        let r = Storage { buckets: Vec::new(), allocator: Allocator::new() };
        assert(r.table() =~= Seq::<(Seq<u8>, u64)>::empty());
        r
    }

    /// An empty bucket table, with the given allocator.
    pub fn with_allocator(allocator: Allocator) -> (r: Storage)
        requires
            allocator.wf(),
        ensures
            r.wf(),
            r.table() == Seq::<(Seq<u8>, u64)>::empty(),
            r.allocator == allocator,
    {
        let r = Storage { buckets: Vec::new(), allocator };
        assert(r.table() =~= Seq::<(Seq<u8>, u64)>::empty());
        r
    }

    /// The first offset of durable memory that was never allocated.
    pub fn size(&self) -> (r: u64)
        ensures
            r == self.allocator.spec_boundary(),
    {
        self.allocator.boundary()
    }

    /// The number of shards in the bucket table.
    pub fn bucket_count(&self) -> (r: usize)
        ensures
            r == self.table().len(),
    {
        self.buckets.len()
    }

    /// The identifier and used bytes of entry `i` of the bucket table.
    pub fn bucket(&self, i: usize) -> (r: (Vec<u8>, u64))
        requires
            i < self.table().len(),
        ensures
            r.0@ == self.table()[i as int].0,
            r.1 == self.table()[i as int].1,
    {
        (copy_bytes(&self.buckets[i].id), self.buckets[i].used)
    }

    /// The shard that the next blob goes to: the first in the table whose
    /// used bytes are below `max_bucket_size`. `None` means that a new shard
    /// must be provisioned.
    pub fn select_bucket(&self, max_bucket_size: u64) -> (r: Option<Vec<u8>>)
        ensures
            r is None <==> forall|k: int|
                0 <= k < self.table().len() ==> #[trigger] self.table()[k].1 >= max_bucket_size,
            r matches Some(id) ==> exists|i: int|
                first_with_room(self.table(), max_bucket_size, i) && self.table()[i].0 == id@,
    {
        let mut i: usize = 0;
        while i < self.buckets.len()
            invariant
                i <= self.table().len(),
                self.table().len() == self.buckets@.len(),
                forall|k: int| 0 <= k < i ==> #[trigger] self.table()[k].1 >= max_bucket_size,
            decreases self.buckets@.len() - i,
        {
            if self.buckets[i].used < max_bucket_size {
                assert(self.table()[i as int].1 == self.buckets@[i as int].used);
                let id = copy_bytes(&self.buckets[i].id);
                assert(first_with_room(self.table(), max_bucket_size, i as int));
                return Some(id);
            }
            i = i + 1;
        }
        None
    }

    /// Records that shard `id` uses `used` bytes, adding it to the table
    /// where it is new.
    pub fn set_used(&mut self, id: Vec<u8>, used: u64)
        requires
            old(self).wf(),
        ensures
            final(self).wf(),
            final(self).allocator == old(self).allocator,
            table_set(old(self).table(), id@, used, final(self).table()),
    {
        let ghost t = self.table();
        let n = self.buckets.len();
        let mut p: usize = 0;
        let mut c: i8 = -1;
        let mut done = false;
        while p < n && !done
            invariant
                n == self.buckets@.len() == t.len(),
                t == self.table(),
                table_sorted(t),
                p <= n,
                forall|k: int| 0 <= k < p ==> id_less(#[trigger] t[k].0, id@),
                done ==> p < n && c >= 0 && (c == 0 <==> t[p as int].0 == id@) && (c > 0 ==> id_less(
                    id@,
                    t[p as int].0,
                )),
                !done ==> c < 0,
            decreases n - p + (if done { 0int } else { 1int }),
        {
            c = compare_ids(&self.buckets[p].id, &id);
            assert(t[p as int].0 == self.buckets@[p as int].id@);
            if c < 0 {
                p = p + 1;
            } else {
                done = true;
            }
        }
        if c == 0 {
            self.buckets.set(p, Bucket { id, used });
            proof {
                assert(self.table() =~= t.update(p as int, (id@, used)));
            }
        } else {
            proof {
                assert forall|k: int| p <= k < t.len() implies id_less(id@, #[trigger] t[k].0) by {
                    if k > p {
                        lemma_id_less_transitive(id@, t[p as int].0, t[k].0);
                    }
                }
                assert(p < t.len() ==> t[p as int].0 != id@) by {
                    if p < t.len() && t[p as int].0 == id@ {
                        lemma_id_less_asymmetric(id@, id@);
                    }
                }
            }
            let ghost idv = id@;
            self.buckets.insert(p, Bucket { id, used });
            proof {
                assert(self.table() =~= t.insert(p as int, (idv, used)));
                let t2 = self.table();
                assert forall|i: int, j: int| 0 <= i < j < t2.len() implies id_less(
                    #[trigger] t2[i].0,
                    #[trigger] t2[j].0,
                ) by {
                    if j < p {
                    } else if i < p && j == p {
                    } else if i < p {
                        assert(t2[j] == t[j - 1]);
                        lemma_id_less_transitive(t2[i].0, idv, t2[j].0);
                    } else if i == p {
                        assert(t2[j] == t[j - 1]);
                    } else {
                        assert(t2[i] == t[i - 1] && t2[j] == t[j - 1]);
                    }
                }
            }
        }
    }

    /// Records a blob of `blob_len` bytes that shard `id` stored at the offset
    /// that `response` encodes (eight big-endian bytes): the shard's used
    /// bytes become that offset plus `blob_len`. Returns the offset.
    pub fn record_write(&mut self, id: Vec<u8>, response: &Vec<u8>, blob_len: u64) -> (r: Result<u64, ShardError>)
        requires
            old(self).wf(),
        ensures
            final(self).wf(),
            final(self).allocator == old(self).allocator,
            response@.len() != 8 ==> r == Err::<u64, ShardError>(ShardError::MalformedOffset),
            response@.len() == 8 && be_value(response@, 0) + blob_len > u64::MAX ==> r == Err::<
                u64,
                ShardError,
            >(ShardError::OffsetOverflow),
            r is Err ==> final(self).table() == old(self).table(),
            response@.len() == 8 && be_value(response@, 0) + blob_len <= u64::MAX ==> r == Ok::<
                u64,
                ShardError,
            >(be_value(response@, 0)) && table_set(
                old(self).table(),
                id@,
                (be_value(response@, 0) + blob_len) as u64,
                final(self).table(),
            ),
    {
        if response.len() != 8 {
            return Err(ShardError::MalformedOffset);
        }
        let offset = u64_from_be(response, 0);
        if offset > u64::MAX - blob_len {
            return Err(ShardError::OffsetOverflow);
        }
        self.set_used(id, offset + blob_len);
        Ok(offset)
    }
}

impl Default for Storage {
    fn default() -> (r: Storage)
        ensures
            r.wf(),
            r.table() == Seq::<(Seq<u8>, u64)>::empty(),
            r.allocator.spec_segments() == Seq::<(u64, u64)>::empty(),
            r.allocator.spec_boundary() == crate::allocator::INITIAL_OFFSET,
    {
        Storage::new()
    }
}

} // verus!
