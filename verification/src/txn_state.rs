//! The list-append transaction workload: a transaction is a sequence of
//! reads and appends over keyed lists, applied atomically in order, with
//! each read reporting the list as of its own position.

use vstd::prelude::*;

use crate::assoc::{assoc_view, distinct_keys, lemma_assoc_at, lemma_assoc_contains, lemma_assoc_push, lemma_assoc_update};

verus! {

/// A key of the transaction store.
pub type KeyValue = u64;

/// One element of a keyed list.
pub type ElementValue = u64;

/// One transaction function: read a key's list, or append one element.
#[derive(Clone, PartialEq, Eq, Debug)]
pub enum TxnFunc {
    Read { key: KeyValue, value: Option<Vec<ElementValue>> },
    Append { key: KeyValue, element: ElementValue },
}

/// View of a transaction function, with lists as sequences.
pub enum TxnFuncView {
    Read { key: KeyValue, value: Option<Seq<ElementValue>> },
    Append { key: KeyValue, element: ElementValue },
}

impl View for TxnFunc {
    type V = TxnFuncView;

    open spec fn view(&self) -> TxnFuncView {
        match self {
            TxnFunc::Read { key, value } => TxnFuncView::Read {
                key: *key,
                value: match value {
                    Some(v) => Some(v@),
                    None => None,
                },
            },
            TxnFunc::Append { key, element } => TxnFuncView::Append {
                key: *key,
                element: *element,
            },
        }
    }
}

/// One transaction: its functions, in order.
#[derive(Clone, PartialEq, Eq, Debug)]
pub struct TxnData {
    pub txn: Vec<TxnFunc>,
}

impl View for TxnData {
    type V = Seq<TxnFuncView>;

    open spec fn view(&self) -> Seq<TxnFuncView> {
        self.txn@.map(|_i: int, f: TxnFunc| f@)
    }
}

/// The list stored under `key`, or the empty list.
pub open spec fn list_at(m: Map<KeyValue, Seq<ElementValue>>, key: KeyValue) -> Seq<ElementValue> {
    if m.contains_key(key) {
        m[key]
    } else {
        Seq::empty()
    }
}

/// Apply one function: a read reports the key's current list (or nothing
/// for an absent key) and leaves the store; an append extends the key's
/// list by one element and echoes itself.
pub open spec fn apply_func_spec(m: Map<KeyValue, Seq<ElementValue>>, f: TxnFuncView) -> (
    Map<KeyValue, Seq<ElementValue>>,
    TxnFuncView,
) {
    match f {
        TxnFuncView::Read { key, value } => (
            m,
            TxnFuncView::Read {
                key,
                value: if m.contains_key(key) {
                    Some(m[key])
                } else {
                    None
                },
            },
        ),
        TxnFuncView::Append { key, element } => (
            m.insert(key, list_at(m, key).push(element)),
            f,
        ),
    }
}

/// Apply a whole transaction, front to back, collecting the answers.
pub open spec fn apply_txn_spec(m: Map<KeyValue, Seq<ElementValue>>, fs: Seq<TxnFuncView>) -> (
    Map<KeyValue, Seq<ElementValue>>,
    Seq<TxnFuncView>,
)
    decreases fs.len(),
{
    if fs.len() == 0 {
        (m, Seq::empty())
    } else {
        let prev = apply_txn_spec(m, fs.drop_last());
        let stepped = apply_func_spec(prev.0, fs.last());
        (stepped.0, prev.1.push(stepped.1))
    }
}

/// The transaction store of one node, viewed as a map from keys to lists.
pub struct LocalState {
    map: Vec<(KeyValue, Vec<ElementValue>)>,
}

impl View for LocalState {
    type V = Map<KeyValue, Seq<ElementValue>>;

    closed spec fn view(&self) -> Map<KeyValue, Seq<ElementValue>> {
        assoc_map(self.map@)
    }
}

/// The map an entry list denotes, with lists as sequences.
pub open spec fn assoc_map(entries: Seq<(KeyValue, Vec<ElementValue>)>) -> Map<
    KeyValue,
    Seq<ElementValue>,
> {
    assoc_view(entries).map_values(|v: Vec<ElementValue>| v@)
}

/// Entrywise equal lists (keys equal, values equal as sequences) denote
/// the same map.
proof fn lemma_assoc_map_by_parts(
    a: Seq<(KeyValue, Vec<ElementValue>)>,
    b: Seq<(KeyValue, Vec<ElementValue>)>,
)
    requires
        a.len() == b.len(),
        forall|k: int| 0 <= k < a.len() ==> (#[trigger] a[k]).0 == b[k].0 && a[k].1@ == b[k].1@,
        distinct_keys(b),
    ensures
        distinct_keys(a),
        assoc_map(a) == assoc_map(b),
{
    assert forall|i: int, j: int|
        0 <= i < j < a.len() implies (#[trigger] a[i]).0 != (#[trigger] a[j]).0 by {
        assert(a[i].0 == b[i].0 && a[j].0 == b[j].0);
    }
    assert forall|k: KeyValue|
        assoc_view(a).contains_key(k) == assoc_view(b).contains_key(k) by {
        lemma_assoc_contains(a, k);
        lemma_assoc_contains(b, k);
        if exists|i: int| 0 <= i < a.len() && (#[trigger] a[i]).0 == k {
            let i = choose|i: int| 0 <= i < a.len() && (#[trigger] a[i]).0 == k;
            assert(b[i].0 == k);
        }
        if exists|i: int| 0 <= i < b.len() && (#[trigger] b[i]).0 == k {
            let i = choose|i: int| 0 <= i < b.len() && (#[trigger] b[i]).0 == k;
            assert(a[i].0 == k);
        }
    }
    assert forall|k: KeyValue| assoc_view(a).contains_key(k) implies assoc_map(a)[k] == assoc_map(
        b,
    )[k] by {
        lemma_assoc_contains(a, k);
        let i = choose|i: int| 0 <= i < a.len() && (#[trigger] a[i]).0 == k;
        lemma_assoc_at(a, i);
        lemma_assoc_at(b, i);
    }
    assert(assoc_map(a) =~= assoc_map(b));
}

/// A copy of a list of elements.
fn clone_elements(values: &Vec<ElementValue>) -> (r: Vec<ElementValue>)
    ensures
        r@ == values@,
{
    let mut r: Vec<ElementValue> = Vec::new();
    let mut i: usize = 0;
    while i < values.len()
        invariant
            i <= values@.len(),
            r@ == values@.take(i as int),
        decreases values@.len() - i,
    {
        r.push(values[i]);
        proof {
            assert(values@.take(i + 1) =~= values@.take(i as int).push(values@[i as int]));
        }
        i = i + 1;
    }
    proof {
        assert(values@.take(values@.len() as int) =~= values@);
    }
    r
}

impl LocalState {
    /// Each key is stored at most once.
    pub closed spec fn wf(&self) -> bool {
        distinct_keys(self.map@)
    }

    /// An empty store.
    pub fn new() -> (r: Self)
        ensures
            r.wf(),
            r@ == Map::<KeyValue, Seq<ElementValue>>::empty(),
    {
        let r = Self { map: Vec::new() };
        proof {
            assert(r@ =~= Map::<KeyValue, Seq<ElementValue>>::empty());
        }
        r
    }

    /// The stored entries (specification-level).
    pub closed spec fn entries(&self) -> Seq<(KeyValue, Vec<ElementValue>)> {
        self.map@
    }

    /// A store holding exactly the given entries.
    pub fn from_entries(entries: Vec<(KeyValue, Vec<ElementValue>)>) -> (r: Self)
        requires
            distinct_keys(entries@),
        ensures
            r.wf(),
            r@ == assoc_map(entries@),
    {
        Self { map: entries }
    }

    /// A copy of the stored entries, one pair per key.
    pub fn to_entries(&self) -> (r: Vec<(KeyValue, Vec<ElementValue>)>)
        requires
            self.wf(),
        ensures
            distinct_keys(r@),
            assoc_map(r@) == self@,
    {
        let mut r: Vec<(KeyValue, Vec<ElementValue>)> = Vec::new();
        let mut i: usize = 0;
        while i < self.map.len()
            invariant
                i <= self.entries().len(),
                r@.len() == i,
                forall|k: int| 0 <= k < i ==> r@[k].0 == self.entries()[k].0 && (
                #[trigger] r@[k]).1@ == self.entries()[k].1@,
            decreases self.entries().len() - i,
        {
            let values = clone_elements(&self.map[i].1);
            r.push((self.map[i].0, values));
            i = i + 1;
        }
        proof {
            lemma_assoc_map_by_parts(r@, self.entries());
        }
        r
    }

    /// The position of `key`, if it is stored.
    fn find(&self, key: KeyValue) -> (r: Option<usize>)
        ensures
            match r {
                Some(i) => i < self.entries().len() && self.entries()[i as int].0 == key,
                None => forall|i: int|
                    0 <= i < self.entries().len() ==> (#[trigger] self.entries()[i]).0 != key,
            },
    {
        let mut i: usize = 0;
        while i < self.map.len()
            invariant
                i <= self.entries().len(),
                forall|k: int| 0 <= k < i ==> (#[trigger] self.entries()[k]).0 != key,
            decreases self.entries().len() - i,
        {
            if self.map[i].0 == key {
                return Some(i);
            }
            i = i + 1;
        }
        None
    }

    /// Apply one function and return its answer.
    fn apply_func(&mut self, func: &TxnFunc) -> (r: TxnFunc)
        requires
            old(self).wf(),
        ensures
            final(self).wf(),
            final(self)@ == apply_func_spec(old(self)@, func@).0,
            r@ == apply_func_spec(old(self)@, func@).1,
    {
        match func {
            TxnFunc::Read { key, value: _ } => {
                let found = self.find(*key);
                match found {
                    Some(i) => {
                        proof {
                            lemma_assoc_at(self.entries(), i as int);
                            assert(self@.contains_key(*key));
                            assert(self@[*key] == self.entries()[i as int].1@);
                        }
                        let list = clone_elements(&self.map[i].1);
                        TxnFunc::Read { key: *key, value: Some(list) }
                    },
                    None => {
                        proof {
                            lemma_assoc_contains(self.entries(), *key);
                            assert(!assoc_view(self.entries()).contains_key(*key));
                            assert(!self@.contains_key(*key));
                        }
                        TxnFunc::Read { key: *key, value: None }
                    },
                }
            },
            TxnFunc::Append { key, element } => {
                let found = self.find(*key);
                match found {
                    Some(i) => {
                        proof {
                            lemma_assoc_at(self.entries(), i as int);
                        }
                        let mut list = clone_elements(&self.map[i].1);
                        list.push(*element);
                        proof {
                            lemma_assoc_update(self.entries(), i as int, list);
                            assert(self@.contains_key(*key));
                        }
                        let ghost before = self@;
                        self.map.set(i, (*key, list));
                        proof {
                            assert(self@ =~= before.insert(*key, list_at(before, *key).push(*element)));
                        }
                    },
                    None => {
                        let mut list: Vec<ElementValue> = Vec::new();
                        list.push(*element);
                        proof {
                            lemma_assoc_contains(self.entries(), *key);
                            lemma_assoc_push(self.entries(), *key, list);
                        }
                        let ghost before = self@;
                        self.map.push((*key, list));
                        proof {
                            assert(list@ =~= Seq::<ElementValue>::empty().push(*element));
                            assert(self@ =~= before.insert(*key, list_at(before, *key).push(*element)));
                        }
                    },
                }
                TxnFunc::Append { key: *key, element: *element }
            },
        }
    }

    /// Apply every function of the transaction in order and return their
    /// answers in the same order.
    pub fn apply_txn(&mut self, txn_data: &TxnData) -> (r: TxnData)
        requires
            old(self).wf(),
        ensures
            final(self).wf(),
            final(self)@ == apply_txn_spec(old(self)@, txn_data@).0,
            r@ == apply_txn_spec(old(self)@, txn_data@).1,
    {
        let mut answers: Vec<TxnFunc> = Vec::new();
        let mut i: usize = 0;
        while i < txn_data.txn.len()
            invariant
                self.wf(),
                i <= txn_data@.len(),
                self@ == apply_txn_spec(old(self)@, txn_data@.take(i as int)).0,
                answers@.map(|_k: int, f: TxnFunc| f@) == apply_txn_spec(
                    old(self)@,
                    txn_data@.take(i as int),
                ).1,
            decreases txn_data@.len() - i,
        {
            let ghost before = answers@.map(|_k: int, f: TxnFunc| f@);
            let answer = self.apply_func(&txn_data.txn[i]);
            answers.push(answer);
            proof {
                assert(txn_data@.take(i + 1).drop_last() =~= txn_data@.take(i as int));
                assert(txn_data@.take(i + 1).last() == txn_data@[i as int]);
                assert(answers@.map(|_k: int, f: TxnFunc| f@) =~= before.push(
                    answers@.last()@,
                ));
            }
            i = i + 1;
        }
        proof {
            assert(txn_data@.take(txn_data@.len() as int) =~= txn_data@);
        }
        TxnData { txn: answers }
    }
}


/// The key one transaction function touches.
pub open spec fn key_of(f: TxnFuncView) -> KeyValue {
    match f {
        TxnFuncView::Read { key, .. } => key,
        TxnFuncView::Append { key, .. } => key,
    }
}

/// Whether one transaction function appends to `key`.
pub open spec fn is_append_to(f: TxnFuncView, key: KeyValue) -> bool {
    match f {
        TxnFuncView::Append { key: k, .. } => k == key,
        _ => false,
    }
}

/// Whether the transaction appends to `key`.
pub open spec fn appends_to(fs: Seq<TxnFuncView>, key: KeyValue) -> bool {
    exists|i: int| 0 <= i < fs.len() && is_append_to(#[trigger] fs[i], key)
}

/// Whether the transaction touches `key` at all.
pub open spec fn touches(fs: Seq<TxnFuncView>, key: KeyValue) -> bool {
    exists|i: int| 0 <= i < fs.len() && key_of(#[trigger] fs[i]) == key
}

/// The distinct keys the transaction reads or appends, in first-use
/// order: the storage keys a replicated run must fetch.
pub fn txn_keys(txn_data: &TxnData) -> (r: Vec<KeyValue>)
    ensures
        forall|k: KeyValue| r@.contains(k) <==> touches(txn_data@, k),
        forall|i: int, j: int| 0 <= i < j < r@.len() ==> r@[i] != r@[j],
{
    let mut r: Vec<KeyValue> = Vec::new();
    let mut i: usize = 0;
    while i < txn_data.txn.len()
        invariant
            i <= txn_data@.len(),
            forall|k: KeyValue| r@.contains(k) <==> touches(txn_data@.take(i as int), k),
            forall|a: int, b: int| 0 <= a < b < r@.len() ==> r@[a] != r@[b],
        decreases txn_data@.len() - i,
    {
        let key = match &txn_data.txn[i] {
            TxnFunc::Read { key, .. } => *key,
            TxnFunc::Append { key, .. } => *key,
        };
        let ghost before = r@;
        if !contains_key_exec(&r, key) {
            r.push(key);
        }
        proof {
            assert(key_of(txn_data@[i as int]) == key);
            assert forall|k: KeyValue| r@.contains(k) <==> touches(txn_data@.take(i + 1), k) by {
                if r@.contains(k) {
                    if before.contains(k) {
                        let w = choose|w: int|
                            0 <= w < txn_data@.take(i as int).len() && key_of(
                                #[trigger] txn_data@.take(i as int)[w],
                            ) == k;
                        assert(key_of(txn_data@.take(i + 1)[w]) == k);
                    } else {
                        assert(k == key);
                        assert(key_of(txn_data@.take(i + 1)[i as int]) == k);
                    }
                }
                if touches(txn_data@.take(i + 1), k) {
                    let w = choose|w: int|
                        0 <= w < txn_data@.take(i + 1).len() && key_of(
                            #[trigger] txn_data@.take(i + 1)[w],
                        ) == k;
                    if w < i {
                        assert(key_of(txn_data@.take(i as int)[w]) == k);
                        assert(before.contains(k));
                        assert(r@.contains(k)) by {
                            let c = choose|c: int| 0 <= c < before.len() && before[c] == k;
                            assert(r@[c] == k);
                        }
                    } else {
                        assert(k == key);
                        if before.contains(key) {
                        } else {
                            assert(r@.last() == key);
                        }
                    }
                }
            }
        }
        i = i + 1;
    }
    proof {
        assert(txn_data@.take(txn_data@.len() as int) =~= txn_data@);
    }
    r
}

/// The distinct keys the transaction appends to, in first-use order: the
/// storage keys a replicated run must write back.
pub fn appended_keys(txn_data: &TxnData) -> (r: Vec<KeyValue>)
    ensures
        forall|k: KeyValue| r@.contains(k) <==> appends_to(txn_data@, k),
        forall|i: int, j: int| 0 <= i < j < r@.len() ==> r@[i] != r@[j],
{
    let mut r: Vec<KeyValue> = Vec::new();
    let mut i: usize = 0;
    while i < txn_data.txn.len()
        invariant
            i <= txn_data@.len(),
            forall|k: KeyValue| r@.contains(k) <==> appends_to(txn_data@.take(i as int), k),
            forall|a: int, b: int| 0 <= a < b < r@.len() ==> r@[a] != r@[b],
        decreases txn_data@.len() - i,
    {
        let append_key = match &txn_data.txn[i] {
            TxnFunc::Read { .. } => None,
            TxnFunc::Append { key, .. } => Some(*key),
        };
        let ghost before = r@;
        match append_key {
            Some(key) => {
                if !contains_key_exec(&r, key) {
                    r.push(key);
                }
                proof {
                    assert(is_append_to(txn_data@[i as int], key));
                    assert forall|k: KeyValue| r@.contains(k) <==> appends_to(
                        txn_data@.take(i + 1),
                        k,
                    ) by {
                        if r@.contains(k) {
                            if before.contains(k) {
                                let w = choose|w: int|
                                    0 <= w < txn_data@.take(i as int).len() && is_append_to(
                                        #[trigger] txn_data@.take(i as int)[w],
                                        k,
                                    );
                                assert(is_append_to(txn_data@.take(i + 1)[w], k));
                            } else {
                                assert(k == key);
                                assert(is_append_to(txn_data@.take(i + 1)[i as int], k));
                            }
                        }
                        if appends_to(txn_data@.take(i + 1), k) {
                            let w = choose|w: int|
                                0 <= w < txn_data@.take(i + 1).len() && is_append_to(
                                    #[trigger] txn_data@.take(i + 1)[w],
                                    k,
                                );
                            if w < i {
                                assert(is_append_to(txn_data@.take(i as int)[w], k));
                                assert(before.contains(k));
                                assert(r@.contains(k)) by {
                                    let c = choose|c: int|
                                        0 <= c < before.len() && before[c] == k;
                                    assert(r@[c] == k);
                                }
                            } else {
                                assert(k == key);
                                if !before.contains(key) {
                                    assert(r@.last() == key);
                                }
                            }
                        }
                    }
                }
            },
            None => {
                proof {
                    assert forall|k: KeyValue| r@.contains(k) <==> appends_to(
                        txn_data@.take(i + 1),
                        k,
                    ) by {
                        if r@.contains(k) {
                            let w = choose|w: int|
                                0 <= w < txn_data@.take(i as int).len() && is_append_to(
                                    #[trigger] txn_data@.take(i as int)[w],
                                    k,
                                );
                            assert(is_append_to(txn_data@.take(i + 1)[w], k));
                        }
                        if appends_to(txn_data@.take(i + 1), k) {
                            let w = choose|w: int|
                                0 <= w < txn_data@.take(i + 1).len() && is_append_to(
                                    #[trigger] txn_data@.take(i + 1)[w],
                                    k,
                                );
                            assert(!is_append_to(txn_data@[i as int], k));
                            assert(w != i);
                            assert(is_append_to(txn_data@.take(i as int)[w], k));
                        }
                    }
                }
            },
        }
        i = i + 1;
    }
    proof {
        assert(txn_data@.take(txn_data@.len() as int) =~= txn_data@);
    }
    r
}

/// Whether `keys` holds `key`.
fn contains_key_exec(keys: &Vec<KeyValue>, key: KeyValue) -> (r: bool)
    ensures
        r == keys@.contains(key),
{
    let mut i: usize = 0;
    while i < keys.len()
        invariant
            i <= keys@.len(),
            forall|j: int| 0 <= j < i ==> keys@[j] != key,
        decreases keys@.len() - i,
    {
        if keys[i] == key {
            assert(keys@.contains(key));
            return true;
        }
        i = i + 1;
    }
    false
}

} // verus!
