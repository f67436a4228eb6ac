//! The authorization ledger: the durable record of which output has been
//! bound to which transaction.
use vstd::prelude::*;
use crate::outref::{bytes_copy, bytes_eq, OutputRef, RefKey};

verus! {

/// What the ledger remembers of a bound output: the digest of the transaction
/// it is bound to, the signature issued for that transaction, and the time of
/// the binding.
pub type Binding = (Seq<u8>, Seq<u8>, u64);

/// The persisted unit: one output bound to one transaction.
pub struct AuthorizationRecord {
    pub output_ref: OutputRef,
    pub tx_digest: Vec<u8>,
    pub signature: Vec<u8>,
    pub created_at: u64,
}

impl View for AuthorizationRecord {
    type V = (RefKey, Binding);

    open spec fn view(&self) -> (RefKey, Binding) {
        (self.output_ref@, (self.tx_digest@, self.signature@, self.created_at))
    }
}

impl AuthorizationRecord {
    pub fn new(output_ref: OutputRef, tx_digest: Vec<u8>, signature: Vec<u8>, created_at: u64) -> (r:
        AuthorizationRecord)
        ensures
            r@ == (output_ref@, (tx_digest@, signature@, created_at)),
    {
        AuthorizationRecord { output_ref, tx_digest, signature, created_at }
    }

    pub fn copy(&self) -> (r: AuthorizationRecord)
        ensures
            r@ == self@,
    {
        AuthorizationRecord {
            output_ref: self.output_ref.copy(),
            tx_digest: bytes_copy(&self.tx_digest),
            signature: bytes_copy(&self.signature),
            created_at: self.created_at,
        }
    }
}

/// The map that a list of records describes; a later record of a key wins.
pub open spec fn map_of(s: Seq<(RefKey, Binding)>) -> Map<RefKey, Binding>
    decreases s.len(),
{
    if s.len() == 0 {
        Map::empty()
    } else {
        map_of(s.drop_last()).insert(s.last().0, s.last().1)
    }
}

/// No two records bind the same output.
pub open spec fn unique_keys(s: Seq<(RefKey, Binding)>) -> bool {
    forall|i: int, j: int| 0 <= i < j < s.len() ==> s[i].0 != s[j].0
}

pub open spec fn record_views(v: Seq<AuthorizationRecord>) -> Seq<(RefKey, Binding)> {
    v.map_values(|r: AuthorizationRecord| r@)
}

pub proof fn lemma_map_of_domain(s: Seq<(RefKey, Binding)>, k: RefKey)
    ensures
        map_of(s).contains_key(k) <==> exists|i: int| 0 <= i < s.len() && s[i].0 == k,
    decreases s.len(),
{
    if s.len() > 0 {
        lemma_map_of_domain(s.drop_last(), k);
        if map_of(s).contains_key(k) && k != s.last().0 {
            let i = choose|i: int| 0 <= i < s.drop_last().len() && s.drop_last()[i].0 == k;
            assert(s[i].0 == k);
        }
        if exists|i: int| 0 <= i < s.len() && s[i].0 == k {
            let i = choose|i: int| 0 <= i < s.len() && s[i].0 == k;
            if i < s.len() - 1 {
                assert(s.drop_last()[i].0 == k);
            }
        }
    }
}

pub proof fn lemma_map_of_value(s: Seq<(RefKey, Binding)>, i: int)
    requires
        unique_keys(s),
        0 <= i < s.len(),
    ensures
        map_of(s).contains_key(s[i].0),
        map_of(s)[s[i].0] == s[i].1,
    decreases s.len(),
{
    if i < s.len() - 1 {
        assert(unique_keys(s.drop_last()));
        assert(s.drop_last()[i] == s[i]);
        lemma_map_of_value(s.drop_last(), i);
        assert(s.last().0 != s[i].0);
    }
}

pub proof fn lemma_map_of_push(s: Seq<(RefKey, Binding)>, e: (RefKey, Binding))
    ensures
        map_of(s.push(e)) == map_of(s).insert(e.0, e.1),
{
    assert(s.push(e).drop_last() =~= s);
}

/// The outputs that a request names are all free in `m`.
pub open spec fn none_bound(m: Map<RefKey, Binding>, ks: Seq<RefKey>) -> bool {
    forall|i: int| 0 <= i < ks.len() ==> !m.contains_key(ks[i])
}

/// `m` with every output of `ks` bound to `b`.
pub open spec fn bind_all(m: Map<RefKey, Binding>, ks: Seq<RefKey>, b: Binding) -> Map<
    RefKey,
    Binding,
> {
    m.union_prefer_right(Map::new(|k: RefKey| ks.contains(k), |k: RefKey| b))
}

/// Commit of one output to a transaction whose digest is already bound to it.
pub enum Committed {
    /// The output was free and is now bound.
    New,
    /// The output was already bound to the same digest; nothing changed.
    Existing,
}

/// The output is already bound to a different transaction.
pub struct Conflict;

/// The set of bindings. Each output is bound at most once; a binding is never
/// changed or removed.
pub struct Ledger {
    records: Vec<AuthorizationRecord>,
}

impl View for Ledger {
    type V = Map<RefKey, Binding>;

    closed spec fn view(&self) -> Map<RefKey, Binding> {
        map_of(self.entries())
    }
}

impl Ledger {
    /// The records in the order they were committed.
    pub closed spec fn entries(&self) -> Seq<(RefKey, Binding)> {
        record_views(self.records@)
    }

    pub closed spec fn wf(&self) -> bool {
        unique_keys(self.entries())
    }

    /// An empty ledger.
    pub fn new() -> (r: Ledger)
        ensures
            r.wf(),
            r@ == Map::<RefKey, Binding>::empty(),
            r.entries() == Seq::<(RefKey, Binding)>::empty(),
    {
        let r = Ledger { records: Vec::new() };
        assert(r.entries() =~= Seq::<(RefKey, Binding)>::empty());
        r
    }

    /// The records, in commit order, as they are to be written to storage.
    pub fn records(&self) -> (r: &Vec<AuthorizationRecord>)
        ensures
            record_views(r@) == self.entries(),
    {
        &self.records
    }

    /// Number of bound outputs.
    pub fn len(&self) -> (r: usize)
        requires
            self.wf(),
        ensures
            r == self@.len(),
    {
        proof { self.lemma_len(); }
        self.records.len()
    }

    proof fn lemma_len(&self)
        requires
            self.wf(),
        ensures
            self@.len() == self.records@.len(),
    {
        lemma_unique_map_len(self.entries());
    }

    /// Looks up the record that binds `output_ref`, if any.
    pub fn lookup(&self, output_ref: &OutputRef) -> (r: Option<&AuthorizationRecord>)
        requires
            self.wf(),
        ensures
            r.is_none() <==> !self@.contains_key(output_ref@),
            r matches Some(rec) ==> rec@.0 == output_ref@ && rec@.1 == self@[output_ref@],
    {
        let mut i: usize = 0;
        while i < self.records.len()
            invariant
                self.wf(),
                0 <= i <= self.records@.len(),
                forall|j: int| 0 <= j < i ==> self.entries()[j].0 != output_ref@,
            decreases self.records@.len() - i,
        {
            if self.records[i].output_ref.same_as(output_ref) {
                proof {
                    assert(self.entries()[i as int] == self.records@[i as int]@);
                    lemma_map_of_value(self.entries(), i as int);
                }
                return Some(&self.records[i]);
            }
            assert(self.entries()[i as int] == self.records@[i as int]@);
            i = i + 1;
        }
        proof {
            lemma_map_of_domain(self.entries(), output_ref@);
        }
        None
    }

    /// Binds `output_ref` to a transaction. A free output is bound; one bound to
    /// the same digest is left as it is; one bound to another digest is a
    /// conflict, and the ledger is unchanged.
    pub fn commit(
        &mut self,
        output_ref: &OutputRef,
        tx_digest: &Vec<u8>,
        signature: &Vec<u8>,
        created_at: u64,
    ) -> (r: Result<Committed, Conflict>)
        requires
            old(self).wf(),
        ensures
            final(self).wf(),
            !old(self)@.contains_key(output_ref@) ==> r is Ok && r->Ok_0 is New && final(self)@
                == old(self)@.insert(output_ref@, (tx_digest@, signature@, created_at)),
            old(self)@.contains_key(output_ref@) && old(self)@[output_ref@].0 == tx_digest@ ==> r is Ok
                && r->Ok_0 is Existing && final(self)@ == old(self)@,
            old(self)@.contains_key(output_ref@) && old(self)@[output_ref@].0 != tx_digest@ ==> r is Err
                && final(self)@ == old(self)@,
    {
        match self.lookup(output_ref) {
            Some(rec) => {
                if bytes_eq(&rec.tx_digest, tx_digest) {
                    Ok(Committed::Existing)
                } else {
                    Err(Conflict)
                }
            },
            None => {
                self.push_new(output_ref, tx_digest, signature, created_at);
                Ok(Committed::New)
            },
        }
    }

    fn push_new(
        &mut self,
        output_ref: &OutputRef,
        tx_digest: &Vec<u8>,
        signature: &Vec<u8>,
        created_at: u64,
    )
        requires
            old(self).wf(),
            !old(self)@.contains_key(output_ref@),
        ensures
            final(self).wf(),
            final(self)@ == old(self)@.insert(output_ref@, (tx_digest@, signature@, created_at)),
            final(self).entries() == old(self).entries().push(
                (output_ref@, (tx_digest@, signature@, created_at)),
            ),
    {
        let rec = AuthorizationRecord::new(
            output_ref.copy(),
            bytes_copy(tx_digest),
            bytes_copy(signature),
            created_at,
        );
        let ghost old_entries = self.entries();
        proof {
            lemma_map_of_domain(old_entries, output_ref@);
        }
        self.records.push(rec);
        proof {
            assert(self.entries() =~= old_entries.push(rec@));
            lemma_map_of_push(old_entries, rec@);
            assert forall|i: int, j: int|
                0 <= i < j < self.entries().len() implies self.entries()[i].0
                != self.entries()[j].0 by {
                if j == old_entries.len() {
                    assert(old_entries[i].0 == self.entries()[i].0);
                }
            }
        }
    }

    /// Binds every output of `refs` to one transaction, all or nothing: when
    /// any of them is already bound the ledger is left unchanged and the
    /// result is a conflict.
    pub fn commit_all(
        &mut self,
        refs: &Vec<OutputRef>,
        tx_digest: &Vec<u8>,
        signature: &Vec<u8>,
        created_at: u64,
    ) -> (r: Result<(), Conflict>)
        requires
            old(self).wf(),
        ensures
            final(self).wf(),
            r is Ok <==> none_bound(old(self)@, crate::outref::keys_of(refs@)),
            r is Ok ==> final(self)@ == bind_all(
                old(self)@,
                crate::outref::keys_of(refs@),
                (tx_digest@, signature@, created_at),
            ),
            r is Err ==> final(self)@ == old(self)@,
    {
        let ghost ks = crate::outref::keys_of(refs@);
        let n = refs.len();
        let mut i: usize = 0;
        while i < n
            invariant
                n == refs@.len(),
                ks == crate::outref::keys_of(refs@),
                self.wf(),
                0 <= i <= n,
                forall|j: int| 0 <= j < i ==> !self@.contains_key(ks[j]),
            decreases n - i,
        {
            if self.lookup(&refs[i]).is_some() {
                assert(ks[i as int] == refs@[i as int]@);
                return Err(Conflict);
            }
            i = i + 1;
        }
        let ghost m0 = self@;
        let ghost b: Binding = (tx_digest@, signature@, created_at);
        let mut i: usize = 0;
        while i < n
            invariant
                n == refs@.len(),
                ks == crate::outref::keys_of(refs@),
                b == (tx_digest@, signature@, created_at),
                self.wf(),
                0 <= i <= n,
                none_bound(m0, ks),
                self@ == bind_all(m0, ks.subrange(0, i as int), b),
            decreases n - i,
        {
            let ghost before = self@;
            assert(ks[i as int] == refs@[i as int]@);
            assert(ks.subrange(0, i + 1) =~= ks.subrange(0, i as int).push(ks[i as int]));
            let ghost pre = ks.subrange(0, i as int);
            let ghost post = ks.subrange(0, i + 1);
            assert forall|k: RefKey| post.contains(k) <==> (pre.contains(k) || k == ks[i as int]) by {
                if post.contains(k) && k != ks[i as int] {
                    let j = choose|j: int| 0 <= j < post.len() && post[j] == k;
                    assert(pre[j] == k);
                }
                if pre.contains(k) {
                    let j = choose|j: int| 0 <= j < pre.len() && pre[j] == k;
                    assert(post[j] == k);
                }
                if k == ks[i as int] {
                    assert(post[i as int] == k);
                }
            }
            if self.lookup(&refs[i]).is_none() {
                self.push_new(&refs[i], tx_digest, signature, created_at);
                assert(self@ =~= bind_all(m0, ks.subrange(0, i + 1), b));
            } else {
                assert(before.contains_key(ks[i as int]));
                assert(!m0.contains_key(ks[i as int]));
                assert(ks.subrange(0, i as int).contains(ks[i as int]));
                assert(self@ =~= bind_all(m0, ks.subrange(0, i + 1), b));
            }
            i = i + 1;
        }
        assert(ks.subrange(0, n as int) =~= ks);
        Ok(())
    }

    /// Rebuilds a ledger from the records read back from storage. The records
    /// are refused when two of them bind the same output.
    pub fn restore(records: Vec<AuthorizationRecord>) -> (r: Option<Ledger>)
        ensures
            r is Some <==> unique_keys(record_views(records@)),
            r matches Some(l) ==> l.wf() && l.entries() == record_views(records@) && l@ == map_of(
                record_views(records@),
            ),
    {
        let n = records.len();
        let mut i: usize = 0;
        while i < n
            invariant
                n == records@.len(),
                0 <= i <= n,
                forall|a: int, b: int|
                    0 <= a < b < n && a < i ==> record_views(records@)[a].0 != record_views(
                        records@,
                    )[b].0,
            decreases n - i,
        {
            let mut j: usize = i + 1;
            while j < n
                invariant
                    n == records@.len(),
                    0 <= i < n,
                    i + 1 <= j <= n,
                    forall|a: int, b: int|
                        0 <= a < b < n && a < i ==> record_views(records@)[a].0 != record_views(
                            records@,
                        )[b].0,
                    forall|b: int|
                        i < b < j ==> record_views(records@)[i as int].0 != record_views(
                            records@,
                        )[b].0,
                decreases n - j,
            {
                if records[i].output_ref.same_as(&records[j].output_ref) {
                    assert(record_views(records@)[i as int].0 == record_views(records@)[j as int].0);
                    return None;
                }
                j = j + 1;
            }
            i = i + 1;
        }
        Some(Ledger { records })
    }
}

/// Records written out by a ledger and read back after a restart rebuild
/// that very ledger: every binding is present, unchanged, and none is added.
pub proof fn lemma_restore_after_restart(l: Ledger, stored: Seq<AuthorizationRecord>)
    requires
        l.wf(),
        record_views(stored) == l.entries(),
    ensures
        unique_keys(record_views(stored)),
        map_of(record_views(stored)) == l@,
{
}

proof fn lemma_unique_map_len(s: Seq<(RefKey, Binding)>)
    requires
        unique_keys(s),
    ensures
        map_of(s).dom().finite(),
        map_of(s).len() == s.len(),
    decreases s.len(),
{
    if s.len() > 0 {
        let t = s.drop_last();
        assert(unique_keys(t));
        lemma_unique_map_len(t);
        lemma_map_of_domain(t, s.last().0);
        if map_of(t).contains_key(s.last().0) {
            let i = choose|i: int| 0 <= i < t.len() && t[i].0 == s.last().0;
            assert(s[i].0 == s[s.len() - 1].0);
        }
    }
}

} // verus!
