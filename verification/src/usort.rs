//! The unique-sort-with-multiplicity protocol: the sort-and-witness builder,
//! the per-value verifier, the multiplicity walker and its exhaustion
//! assertion, threaded through an explicit scope-frame object.

use vstd::prelude::*;

verus! {

use crate::value::{Value, ValueOrder, value_cmp};

/// Failure of the protocol. Every error aborts the current run; none is
/// recovered from.
#[derive(Debug, PartialEq)]
pub enum UsortError {
    /// The claimed input length exceeds the configured size cap; carries the
    /// cap and the claimed length.
    SizeExceeded(u64, Value),
    /// A length cannot be represented as a machine-native size.
    IndexConversionFailure,
    /// The value presented for verification has no position-witness entry.
    MissingWitnessEntry,
    /// The exhaustion assertion found unconsumed positions.
    MultiplicityUnderflow,
    /// A walker step was invoked with an already-empty position list.
    MultiplicityOverflow,
    /// A read of the input sequence hit an unset memory cell.
    MemoryAccessFailure,
}

/// The numbers a sequence of values denotes.
pub open spec fn vals(s: Seq<Value>) -> Seq<nat> {
    s.map_values(|v: Value| v@)
}

/// Every value of the sequence is well formed.
pub open spec fn all_wf(s: Seq<Value>) -> bool {
    forall|i: int| 0 <= i < s.len() ==> (#[trigger] s[i]).wf()
}

/// The indices, in ascending order, at which `v` occurs in `s`.
pub open spec fn occ_positions(s: Seq<nat>, v: nat) -> Seq<int>
    decreases s.len(),
{
    if s.len() == 0 {
        Seq::empty()
    } else {
        let p = occ_positions(s.drop_last(), v);
        if s.last() == v {
            p.push(s.len() - 1)
        } else {
            p
        }
    }
}

/// The number of occurrences of `v` in `s`.
pub open spec fn count_of(s: Seq<nat>, v: nat) -> nat {
    occ_positions(s, v).len()
}

/// `v` occurs somewhere in `s`.
pub open spec fn contains_value(s: Seq<nat>, v: nat) -> bool {
    exists|i: int| 0 <= i < s.len() && s[i] == v
}

/// The numbers of `s` are strictly ascending: sorted with no duplicate.
pub open spec fn strictly_ascending_nats(s: Seq<nat>) -> bool {
    forall|i: int, j: int| 0 <= i < j < s.len() ==> s[i] < s[j]
}

/// The positions of `s` are strictly ascending.
pub open spec fn strictly_ascending_u64s(s: Seq<u64>) -> bool {
    forall|i: int, j: int| 0 <= i < j < s.len() ==> s[i] < s[j]
}

/// The positions of `s` are strictly descending.
pub open spec fn strictly_descending_u64s(s: Seq<u64>) -> bool {
    forall|i: int, j: int| 0 <= i < j < s.len() ==> s[i] > s[j]
}

/// The integers a sequence of machine-word positions denotes.
pub open spec fn pos_ints(ps: Seq<u64>) -> Seq<int> {
    ps.map_values(|p: u64| p as int)
}

/// The occurrence positions of `v` in `s` are exactly the indices at which
/// `v` stands, each below the length, strictly ascending, and there is one
/// exactly when `v` occurs at all.
pub proof fn lemma_occ_props(s: Seq<nat>, v: nat)
    ensures
        forall|j: int|
            0 <= j < occ_positions(s, v).len() ==> 0 <= #[trigger] occ_positions(s, v)[j]
                < s.len() && s[occ_positions(s, v)[j]] == v,
        forall|j: int, k: int|
            0 <= j < k < occ_positions(s, v).len() ==> occ_positions(s, v)[j] < occ_positions(
                s,
                v,
            )[k],
        occ_positions(s, v).len() > 0 <==> contains_value(s, v),
    decreases s.len(),
{
    if s.len() == 0 {
    } else {
        let pre = s.drop_last();
        lemma_occ_props(pre, v);
        assert(forall|j: int| 0 <= j < pre.len() ==> pre[j] == s[j]);
        if contains_value(pre, v) {
            let j = choose|j: int| 0 <= j < pre.len() && pre[j] == v;
            assert(s[j] == v);
            assert(contains_value(s, v));
        }
        if s.last() == v {
            assert(contains_value(s, v));
        }
        if contains_value(s, v) && s.last() != v {
            let j = choose|j: int| 0 <= j < s.len() && s[j] == v;
            assert(j < s.len() - 1);
            assert(pre[j] == v);
            assert(contains_value(pre, v));
        }
    }
}

/// One distinct value together with the positions at which it occurs in the
/// input, in ascending order.
pub struct WitnessEntry {
    pub value: Value,
    pub positions: Vec<u64>,
}

/// Well-formedness of one witness entry: a well-formed value, at least one
/// position, positions strictly ascending and small enough that one past any
/// of them still fits a machine word.
pub open spec fn entry_wf(e: WitnessEntry) -> bool {
    &&& e.value.wf()
    &&& e.positions@.len() > 0
    &&& strictly_ascending_u64s(e.positions@)
    &&& forall|i: int| 0 <= i < e.positions@.len() ==> e.positions@[i] < u64::MAX
}

/// The position witness: one entry per distinct input value, sorted
/// ascending by value. Entries are consumed and removed one value at a time.
pub struct PositionWitness {
    pub entries: Vec<WitnessEntry>,
}

impl PositionWitness {
    /// Entries well formed and strictly ascending by value.
    pub open spec fn wf(&self) -> bool {
        &&& forall|k: int|
            0 <= k < self.entries@.len() ==> entry_wf(#[trigger] self.entries@[k])
        &&& forall|k: int, l: int|
            0 <= k < l < self.entries@.len() ==> self.entries@[k].value@
                < self.entries@[l].value@
    }
}

/// The numbers held by a sequence of witness entries, in entry order.
pub open spec fn entry_values(es: Seq<WitnessEntry>) -> Seq<nat> {
    es.map_values(|e: WitnessEntry| e.value@)
}

/// `es` is the complete position witness of the input `s`: entries strictly
/// ascending by value, holding exactly the distinct values of `s`, each with
/// the ascending occurrence positions of its value.
pub open spec fn witness_for(es: Seq<WitnessEntry>, s: Seq<nat>) -> bool {
    &&& forall|k: int, l: int| 0 <= k < l < es.len() ==> es[k].value@ < es[l].value@
    &&& forall|k: int|
        0 <= k < es.len() ==> pos_ints((#[trigger] es[k]).positions@) == occ_positions(
            s,
            es[k].value@,
        )
    &&& forall|v: nat| #[trigger] contains_value(entry_values(es), v) <==> contains_value(s, v)
}

/// The verification cursor is well formed: positions strictly descending
/// (so that popping from the end consumes them in ascending original order),
/// each small enough to step past, and the last-consumed counter no larger
/// than the next position to pop.
pub open spec fn cursor_wf(ps: Seq<u64>, last: u64) -> bool {
    &&& strictly_descending_u64s(ps)
    &&& forall|i: int| 0 <= i < ps.len() ==> ps[i] < u64::MAX
    &&& ps.len() > 0 ==> last <= ps.last()
}

/// The hint's scope frame, re-architected from an ambient named-variable
/// store into an explicit object passed through the protocol steps: the
/// inherited size cap, the position witness once the builder has stored it,
/// and the verification cursor of the value currently being verified.
pub struct UsortScope {
    /// Optional upper bound on the input length; `None` means unbounded.
    pub max_size: Option<u64>,
    /// The position witness, present once the builder has run.
    pub witness: Option<PositionWitness>,
    /// The remaining position list of the value under verification.
    pub positions: Option<Vec<u64>>,
    /// One past the last consumed position; zero before any consumption.
    pub last_pos: u64,
}

impl UsortScope {
    /// Whatever state is present is well formed.
    pub open spec fn wf(&self) -> bool {
        &&& self.witness matches Some(w) ==> w.wf()
        &&& self.positions matches Some(ps) ==> cursor_wf(ps@, self.last_pos)
    }
}

/// The index of the entry holding `v`, or `-1` where no entry does.
pub open spec fn find_index(es: Seq<WitnessEntry>, v: nat) -> int
    decreases es.len(),
{
    if es.len() == 0 {
        -1
    } else if es[0].value@ == v {
        0
    } else {
        let r = find_index(es.drop_first(), v);
        if r < 0 {
            -1
        } else {
            r + 1
        }
    }
}

/// Where entry values are pairwise distinct, `find_index` returns the index
/// of the one entry holding `v`.
pub proof fn lemma_find_index_present(es: Seq<WitnessEntry>, v: nat, k: int)
    requires
        forall|a: int, b: int|
            0 <= a < b < es.len() ==> (#[trigger] es[a]).value@ != (#[trigger] es[b]).value@,
        0 <= k < es.len(),
        es[k].value@ == v,
    ensures
        find_index(es, v) == k,
    decreases es.len(),
{
    if k == 0 {
    } else {
        assert(es[0].value@ != v);
        let rest = es.drop_first();
        assert forall|a: int, b: int| 0 <= a < b < rest.len() implies (#[trigger] rest[a]).value@
            != (#[trigger] rest[b]).value@ by {
            assert(rest[a] == es[a + 1]);
            assert(rest[b] == es[b + 1]);
        }
        assert(rest[k - 1] == es[k]);
        lemma_find_index_present(rest, v, k - 1);
    }
}

/// Where no entry holds `v`, `find_index` reports its absence.
pub proof fn lemma_find_index_absent(es: Seq<WitnessEntry>, v: nat)
    requires
        forall|k: int| 0 <= k < es.len() ==> (#[trigger] es[k]).value@ != v,
    ensures
        find_index(es, v) == -1,
    decreases es.len(),
{
    if es.len() > 0 {
        let rest = es.drop_first();
        assert forall|k: int| 0 <= k < rest.len() implies (#[trigger] rest[k]).value@ != v by {
            assert(rest[k] == es[k + 1]);
        }
        lemma_find_index_absent(rest, v);
    }
}

/// A non-negative `find_index` result points at an entry holding `v`.
pub proof fn lemma_find_index_sound(es: Seq<WitnessEntry>, v: nat)
    requires
        find_index(es, v) >= 0,
    ensures
        0 <= find_index(es, v) < es.len(),
        es[find_index(es, v)].value@ == v,
    decreases es.len(),
{
    if es.len() == 0 {
    } else if es[0].value@ == v {
    } else {
        lemma_find_index_sound(es.drop_first(), v);
    }
}

/// Binary search for `v` in a value-sorted entry list: the index where it
/// stands, or, where it is absent, the slot at which it would be inserted.
fn find_slot(entries: &Vec<WitnessEntry>, v: &Value) -> (r: (usize, bool))
    requires
        v.wf(),
        forall|k: int| 0 <= k < entries@.len() ==> (#[trigger] entries@[k]).value.wf(),
        forall|k: int, l: int|
            0 <= k < l < entries@.len() ==> entries@[k].value@ < entries@[l].value@,
    ensures
        r.0 <= entries@.len(),
        r.1 ==> r.0 < entries@.len() && entries@[r.0 as int].value@ == v@,
        !r.1 ==> forall|k: int| 0 <= k < entries@.len() ==> (#[trigger] entries@[k]).value@ != v@,
        !r.1 ==> forall|k: int| 0 <= k < r.0 ==> (#[trigger] entries@[k]).value@ < v@,
        !r.1 ==> forall|k: int| r.0 <= k < entries@.len() ==> (#[trigger] entries@[k]).value@ > v@,
{
    let mut lo: usize = 0;
    let mut hi: usize = entries.len();
    while lo < hi
        invariant
            lo <= hi <= entries@.len(),
            v.wf(),
            forall|k: int| 0 <= k < entries@.len() ==> (#[trigger] entries@[k]).value.wf(),
            forall|k: int, l: int|
                0 <= k < l < entries@.len() ==> entries@[k].value@ < entries@[l].value@,
            forall|k: int| 0 <= k < lo ==> (#[trigger] entries@[k]).value@ < v@,
            forall|k: int| hi <= k < entries@.len() ==> (#[trigger] entries@[k]).value@ > v@,
        decreases hi - lo,
    {
        let mid = lo + (hi - lo) / 2;
        match value_cmp(&entries[mid].value, v) {
            ValueOrder::Less => {
                lo = mid + 1;
            },
            ValueOrder::Greater => {
                hi = mid;
            },
            ValueOrder::Equal => {
                return (mid, true);
            },
        }
    }
    (lo, false)
}

/// Per-value verifier: remove this value's entry from the position witness
/// — failing where there is none, since an output value without witness
/// support must be rejected — and stage its positions, reversed, as the
/// verification cursor, with the last-consumed counter reset to zero.
pub fn verify_usort(scope: &mut UsortScope, value: &Value) -> (r: Result<(), UsortError>)
    requires
        old(scope).wf(),
        old(scope).witness is Some,
        value.wf(),
    ensures
        final(scope).wf(),
        final(scope).max_size == old(scope).max_size,
        final(scope).witness is Some,
        match r {
            Ok(()) => {
                let es = old(scope).witness.unwrap().entries@;
                let i = find_index(es, value@);
                &&& 0 <= i < es.len()
                &&& es[i].value@ == value@
                &&& final(scope).witness.unwrap().entries@ == es.remove(i)
                &&& final(scope).positions is Some
                &&& final(scope).positions.unwrap()@ == es[i].positions@.reverse()
                &&& final(scope).last_pos == 0
            },
            Err(e) => {
                let es = old(scope).witness.unwrap().entries@;
                &&& e == UsortError::MissingWitnessEntry
                &&& find_index(es, value@) == -1
                &&& forall|k: int| 0 <= k < es.len() ==> (#[trigger] es[k]).value@ != value@
                &&& final(scope).witness.unwrap().entries@ == es
                &&& final(scope).positions == old(scope).positions
                &&& final(scope).last_pos == old(scope).last_pos
            },
        },
{
    let ghost es = scope.witness.unwrap().entries@;
    let (idx, found) = match &scope.witness {
        Some(w) => find_slot(&w.entries, value),
        None => unreached(),
    };
    if !found {
        proof {
            lemma_find_index_absent(es, value@);
        }
        return Err(UsortError::MissingWitnessEntry);
    }
    proof {
        lemma_find_index_present(es, value@, idx as int);
    }
    let entry = match &mut scope.witness {
        Some(w) => w.entries.remove(idx),
        None => unreached(),
    };
    let ghost orig = entry.positions@;
    let mut ps = entry.positions;
    let mut rev: Vec<u64> = Vec::new();
    while ps.len() > 0
        invariant
            ps@ == orig.subrange(0, ps@.len() as int),
            rev@.len() + ps@.len() == orig.len(),
            forall|j: int| 0 <= j < rev@.len() ==> rev@[j] == orig[orig.len() - 1 - j],
        decreases ps@.len(),
    {
        let p = match ps.pop() {
            Some(p) => p,
            None => unreached(),
        };
        rev.push(p);
    }
    proof {
        assert(rev@ =~= orig.reverse());
    }
    scope.positions = Some(rev);
    scope.last_pos = 0;
    Ok(())
}

/// Scope entry: open a fresh frame seeded with the size cap inherited from
/// the enclosing scope. A cap that was never set and a cap whose lookup
/// failed both arrive here as `None`; the two are deliberately not told
/// apart. Never fails.
pub fn usort_enter_scope(inherited_max_size: Option<u64>) -> (scope: UsortScope)
    ensures
        scope.max_size == inherited_max_size,
        scope.witness is None,
        scope.positions is None,
        scope.last_pos == 0,
        scope.wf(),
{
    UsortScope { max_size: inherited_max_size, witness: None, positions: None, last_pos: 0 }
}

/// What the sort-and-witness builder hands back: the distinct input values
/// in ascending order, and, parallel to them, how often each occurs.
#[derive(Debug, PartialEq)]
pub struct UsortOutput {
    pub output: Vec<Value>,
    pub multiplicities: Vec<usize>,
}

/// Sort-and-witness builder: scan the input once, maintaining a sorted,
/// de-duplicated running output by binary-search-and-insert and appending
/// each index to its value's position list; store the completed position
/// witness in the scope; hand back the output and the multiplicities.
///
/// `input` is the memory region the input sequence starts at; `input_len`
/// is the claimed length N. The builder fails where N does not fit a
/// machine word, where a configured size cap is exceeded — carrying the cap
/// and N — or where the region holds fewer than N cells.
pub fn usort_body(scope: &mut UsortScope, input: &Vec<Value>, input_len: &Value) -> (r: Result<
    UsortOutput,
    UsortError,
>)
    requires
        old(scope).wf(),
        input_len.wf(),
        all_wf(input@),
    ensures
        final(scope).wf(),
        final(scope).max_size == old(scope).max_size,
        final(scope).positions == old(scope).positions,
        final(scope).last_pos == old(scope).last_pos,
        match r {
            Ok(out) => ({
                let s = vals(input@).take(input_len@ as int);
                &&& input_len@ < crate::value::limb_base()
                &&& (old(scope).max_size matches Some(cap) ==> input_len@ <= cap)
                &&& input_len@ <= input@.len()
                &&& out.output@.len() == out.multiplicities@.len()
                &&& all_wf(out.output@)
                &&& strictly_ascending_nats(vals(out.output@))
                &&& (forall|v: nat|
                    #[trigger] contains_value(vals(out.output@), v) <==> contains_value(s, v))
                &&& (forall|k: int|
                    0 <= k < out.output@.len() ==> out.multiplicities@[k] == count_of(
                        s,
                        vals(out.output@)[k],
                    ))
                &&& final(scope).witness matches Some(w)
                &&& witness_for(final(scope).witness.unwrap().entries@, s)
                &&& final(scope).witness.unwrap().wf()
                &&& entry_values(final(scope).witness.unwrap().entries@) == vals(out.output@)
            }),
            Err(e) => ({
                &&& final(scope).witness == old(scope).witness
                &&& match e {
                    UsortError::IndexConversionFailure => input_len@ >= crate::value::limb_base(),
                    UsortError::SizeExceeded(cap, len_v) => {
                        &&& input_len@ < crate::value::limb_base()
                        &&& old(scope).max_size == Some(cap)
                        &&& input_len@ > cap
                        &&& len_v.wf()
                        &&& len_v@ == input_len@
                    },
                    UsortError::MemoryAccessFailure => {
                        &&& input_len@ < crate::value::limb_base()
                        &&& (old(scope).max_size matches Some(cap) ==> input_len@ <= cap)
                        &&& input_len@ > input@.len()
                    },
                    _ => false,
                }
            }),
        },
{
    let n: u64 = match input_len.to_u64() {
        Some(n) => n,
        None => {
            return Err(UsortError::IndexConversionFailure);
        },
    };
    match scope.max_size {
        Some(cap) => {
            if n > cap {
                return Err(UsortError::SizeExceeded(cap, input_len.clone()));
            }
        },
        None => {},
    }
    if n > input.len() as u64 {
        return Err(UsortError::MemoryAccessFailure);
    }
    let ghost sv = vals(input@);
    let mut entries: Vec<WitnessEntry> = Vec::new();
    let mut i: u64 = 0;
    while i < n
        invariant
            i <= n,
            n as int <= input@.len(),
            input@.len() <= usize::MAX,
            sv == vals(input@),
            all_wf(input@),
            forall|k: int| 0 <= k < entries@.len() ==> (#[trigger] entries@[k]).value.wf(),
            forall|k: int, l: int|
                0 <= k < l < entries@.len() ==> entries@[k].value@ < entries@[l].value@,
            forall|k: int| 0 <= k < entries@.len() ==> (#[trigger] entries@[k]).positions@.len() > 0,
            forall|k: int|
                0 <= k < entries@.len() ==> pos_ints((#[trigger] entries@[k]).positions@)
                    == occ_positions(sv.take(i as int), entries@[k].value@),
            forall|j: int| 0 <= j < i ==> contains_value(entry_values(entries@), #[trigger] sv[j]),
        decreases n - i,
    {
        let ghost pfx = sv.take(i as int);
        let ghost pfx2 = sv.take(i as int + 1);
        let v_ref = &input[i as usize];
        let ghost vv = v_ref@;
        proof {
            assert(vv == sv[i as int]);
            assert(pfx2.drop_last() =~= pfx);
            assert(pfx2.last() == sv[i as int]);
        }
        let (idx, found) = find_slot(&entries, v_ref);
        let ghost es0 = entries@;
        if found {
            let mut e = entries.remove(idx);
            e.positions.push(i);
            let ghost enew = e;
            entries.insert(idx, e);
            proof {
                assert(entries@ =~= es0.update(idx as int, enew));
                assert forall|k: int| 0 <= k < entries@.len() implies pos_ints(
                    (#[trigger] entries@[k]).positions@,
                ) == occ_positions(pfx2, entries@[k].value@) by {
                    if k == idx {
                        assert(entries@[k].value@ == vv);
                        assert(entries@[k].positions@ == es0[k].positions@.push(i));
                        assert(pos_ints(es0[k].positions@.push(i)) =~= pos_ints(
                            es0[k].positions@,
                        ).push(i as int));
                        assert(occ_positions(pfx2, vv) == occ_positions(pfx, vv).push(i as int));
                    } else {
                        assert(entries@[k] == es0[k]);
                        assert(es0[idx as int].value@ == vv);
                        assert(es0[k].value@ != vv);
                        assert(occ_positions(pfx2, es0[k].value@) == occ_positions(
                            pfx,
                            es0[k].value@,
                        ));
                    }
                }
                assert(entry_values(entries@) =~= entry_values(es0));
                assert forall|j: int| 0 <= j < i + 1 implies contains_value(
                    entry_values(entries@),
                    #[trigger] sv[j],
                ) by {
                    if j < i {
                        assert(contains_value(entry_values(es0), sv[j]));
                    } else {
                        assert(entry_values(entries@)[idx as int] == vv);
                    }
                }
            }
        } else {
            let mut pos_vec: Vec<u64> = Vec::new();
            pos_vec.push(i);
            let e = WitnessEntry { value: v_ref.clone(), positions: pos_vec };
            let ghost enew = e;
            entries.insert(idx, e);
            proof {
                assert(entries@ == es0.insert(idx as int, enew));
                es0.insert_ensures(idx as int, enew);
                lemma_occ_props(pfx, vv);
                assert(!contains_value(pfx, vv)) by {
                    if contains_value(pfx, vv) {
                        let j = choose|j: int| 0 <= j < pfx.len() && pfx[j] == vv;
                        assert(sv[j] == vv);
                        assert(contains_value(entry_values(es0), vv));
                        let kk = choose|kk: int|
                            0 <= kk < entry_values(es0).len() && entry_values(es0)[kk] == vv;
                        assert(es0[kk].value@ == vv);
                    }
                }
                assert(occ_positions(pfx, vv).len() == 0);
                assert(occ_positions(pfx, vv) =~= Seq::<int>::empty());
                assert(occ_positions(pfx2, vv) == occ_positions(pfx, vv).push(i as int));
                assert(pos_ints(enew.positions@) =~= Seq::<int>::empty().push(i as int));
                assert forall|k: int| 0 <= k < entries@.len() implies pos_ints(
                    (#[trigger] entries@[k]).positions@,
                ) == occ_positions(pfx2, entries@[k].value@) by {
                    if k < idx {
                        assert(entries@[k] == es0[k]);
                        assert(es0[k].value@ < vv);
                        assert(occ_positions(pfx2, es0[k].value@) == occ_positions(
                            pfx,
                            es0[k].value@,
                        ));
                    } else if k == idx {
                        assert(entries@[k] == enew);
                    } else {
                        assert(entries@[k] == es0[k - 1]);
                        assert(es0[k - 1].value@ > vv);
                        assert(occ_positions(pfx2, es0[k - 1].value@) == occ_positions(
                            pfx,
                            es0[k - 1].value@,
                        ));
                    }
                }
                assert forall|k: int, l: int| 0 <= k < l < entries@.len() implies entries@[k].value@
                    < entries@[l].value@ by {
                    if l < idx {
                    } else if k < idx && l == idx {
                        assert(entries@[k] == es0[k]);
                    } else if k < idx && l > idx {
                        assert(entries@[k] == es0[k]);
                        assert(entries@[l] == es0[l - 1]);
                    } else if k == idx {
                        assert(entries@[l] == es0[l - 1]);
                    } else {
                        assert(entries@[k] == es0[k - 1]);
                        assert(entries@[l] == es0[l - 1]);
                    }
                }
                assert forall|j: int| 0 <= j < i + 1 implies contains_value(
                    entry_values(entries@),
                    #[trigger] sv[j],
                ) by {
                    if j < i {
                        assert(contains_value(entry_values(es0), sv[j]));
                        let kk = choose|kk: int|
                            0 <= kk < entry_values(es0).len() && entry_values(es0)[kk] == sv[j];
                        if kk < idx {
                            assert(entry_values(entries@)[kk] == sv[j]);
                        } else {
                            assert(entries@[kk + 1] == es0[kk]);
                            assert(entry_values(entries@)[kk + 1] == sv[j]);
                        }
                    } else {
                        assert(entry_values(entries@)[idx as int] == vv);
                    }
                }
            }
        }
        i += 1;
    }
    proof {
        assert(sv.take(n as int) == sv.take(i as int));
    }
    let mut output: Vec<Value> = Vec::new();
    let mut multiplicities: Vec<usize> = Vec::new();
    let mut k: usize = 0;
    while k < entries.len()
        invariant
            k <= entries@.len(),
            output@.len() == k,
            multiplicities@.len() == k,
            forall|k: int| 0 <= k < entries@.len() ==> (#[trigger] entries@[k]).value.wf(),
            forall|j: int|
                0 <= j < k ==> (#[trigger] output@[j])@ == entries@[j].value@ && output@[j].wf(),
            forall|j: int| 0 <= j < k ==> multiplicities@[j] == entries@[j].positions@.len(),
        decreases entries@.len() - k,
    {
        output.push(entries[k].value.clone());
        multiplicities.push(entries[k].positions.len());
        k += 1;
    }
    let ghost s = sv.take(n as int);
    proof {
        assert(vals(output@) =~= entry_values(entries@));
        assert forall|k: int| 0 <= k < entries@.len() implies entry_wf(
            #[trigger] entries@[k],
        ) by {
            lemma_occ_props(s, entries@[k].value@);
            let ps = entries@[k].positions@;
            let os = occ_positions(s, entries@[k].value@);
            assert(pos_ints(ps) == os);
            assert forall|a: int, b: int| 0 <= a < b < ps.len() implies ps[a] < ps[b] by {
                assert(pos_ints(ps)[a] == ps[a] as int);
                assert(pos_ints(ps)[b] == ps[b] as int);
            }
            assert forall|a: int| 0 <= a < ps.len() implies ps[a] < u64::MAX by {
                assert(pos_ints(ps)[a] == ps[a] as int);
                assert(os[a] < s.len());
                assert(s.len() <= n);
            }
        }
        assert forall|v: nat| #[trigger] contains_value(entry_values(entries@), v)
            <==> contains_value(s, v) by {
            if contains_value(entry_values(entries@), v) {
                let kk = choose|kk: int|
                    0 <= kk < entry_values(entries@).len() && entry_values(entries@)[kk] == v;
                lemma_occ_props(s, v);
                assert(pos_ints(entries@[kk].positions@) == occ_positions(s, v));
                assert(occ_positions(s, v).len() > 0);
            }
            if contains_value(s, v) {
                let j = choose|j: int| 0 <= j < s.len() && s[j] == v;
                assert(sv[j] == v);
                assert(contains_value(entry_values(entries@), sv[j]));
            }
        }
    }
    let witness = PositionWitness { entries };
    scope.witness = Some(witness);
    proof {
        assert forall|kk: int, l: int| 0 <= kk < l < vals(output@).len() implies vals(
            output@,
        )[kk] < vals(output@)[l] by {
            assert(vals(output@)[kk] == entry_values(scope.witness.unwrap().entries@)[kk]);
        }
        assert forall|kk: int| 0 <= kk < output@.len() implies multiplicities@[kk] == count_of(
            s,
            vals(output@)[kk],
        ) by {
            let es = scope.witness.unwrap().entries@;
            assert(pos_ints(es[kk].positions@) == occ_positions(s, es[kk].value@));
            assert(pos_ints(es[kk].positions@).len() == es[kk].positions@.len());
            assert(vals(output@)[kk] == es[kk].value@);
        }
    }
    Ok(UsortOutput { output, multiplicities })
}

/// Exhaustion assertion: succeeds exactly when every position of the value
/// under verification has been walked; otherwise the claimed multiplicity
/// was smaller than the witness supports, and the run is rejected.
pub fn verify_multiplicity_assert(scope: &UsortScope) -> (r: Result<(), UsortError>)
    requires
        scope.positions is Some,
    ensures
        match r {
            Ok(()) => scope.positions.unwrap()@.len() == 0,
            Err(e) => e == UsortError::MultiplicityUnderflow && scope.positions.unwrap()@.len()
                > 0,
        },
{
    match &scope.positions {
        Some(ps) => if ps.len() == 0 {
            Ok(())
        } else {
            Err(UsortError::MultiplicityUnderflow)
        },
        None => unreached(),
    }
}

/// Walker step: pop the next position of the value under verification and
/// emit the gap from one past the previously consumed position; fails
/// exactly when the list is already empty, which means the claimed
/// multiplicity was larger than the witness supports. The emitted gap is
/// non-negative, which is what a downstream range check turns into a proof
/// that the positions are strictly increasing.
pub fn verify_multiplicity_body(scope: &mut UsortScope) -> (r: Result<u64, UsortError>)
    requires
        old(scope).wf(),
        old(scope).positions is Some,
    ensures
        final(scope).wf(),
        final(scope).max_size == old(scope).max_size,
        final(scope).witness == old(scope).witness,
        final(scope).positions is Some,
        match r {
            Ok(gap) => {
                let ps = old(scope).positions.unwrap()@;
                &&& ps.len() > 0
                &&& gap == ps.last() - old(scope).last_pos
                &&& final(scope).positions.unwrap()@ == ps.drop_last()
                &&& final(scope).last_pos == ps.last() + 1
            },
            Err(e) => {
                &&& e == UsortError::MultiplicityOverflow
                &&& old(scope).positions.unwrap()@.len() == 0
                &&& final(scope).positions.unwrap()@ == old(scope).positions.unwrap()@
                &&& final(scope).last_pos == old(scope).last_pos
            },
        },
{
    match &mut scope.positions {
        Some(ps) => {
            let current = match ps.pop() {
                Some(p) => p,
                None => {
                    return Err(UsortError::MultiplicityOverflow);
                },
            };
            let gap = current - scope.last_pos;
            scope.last_pos = current + 1;
            Ok(gap)
        },
        None => unreached(),
    }
}

/// The sum of a sequence of machine-word counts.
pub open spec fn sum_usizes(s: Seq<usize>) -> int
    decreases s.len(),
{
    if s.len() == 0 {
        0
    } else {
        sum_usizes(s.drop_last()) + s.last()
    }
}

/// The sum of the occurrence counts in `s` of each number in `values`.
pub open spec fn sum_counts(s: Seq<nat>, values: Seq<nat>) -> int
    decreases values.len(),
{
    if values.len() == 0 {
        0
    } else {
        sum_counts(s, values.drop_last()) + count_of(s, values.last())
    }
}

proof fn lemma_sum_counts_empty(s: Seq<nat>, values: Seq<nat>)
    requires
        s.len() == 0,
    ensures
        sum_counts(s, values) == 0,
    decreases values.len(),
{
    if values.len() > 0 {
        lemma_sum_counts_empty(s, values.drop_last());
    }
}

proof fn lemma_sum_counts_unchanged(s: Seq<nat>, values: Seq<nat>)
    requires
        s.len() > 0,
        forall|k: int| 0 <= k < values.len() ==> values[k] != s.last(),
    ensures
        sum_counts(s, values) == sum_counts(s.drop_last(), values),
    decreases values.len(),
{
    if values.len() > 0 {
        lemma_sum_counts_unchanged(s, values.drop_last());
        assert(values[values.len() - 1] != s.last());
        assert(count_of(s, values.last()) == count_of(s.drop_last(), values.last()));
    }
}

proof fn lemma_sum_counts_step(s: Seq<nat>, values: Seq<nat>)
    requires
        s.len() > 0,
        forall|a: int, b: int| 0 <= a < b < values.len() ==> values[a] != values[b],
        contains_value(values, s.last()),
    ensures
        sum_counts(s, values) == sum_counts(s.drop_last(), values) + 1,
    decreases values.len(),
{
    let vl = values.last();
    if vl == s.last() {
        assert(count_of(s, vl) == count_of(s.drop_last(), vl) + 1);
        assert forall|k: int| 0 <= k < values.drop_last().len() implies values.drop_last()[k]
            != s.last() by {
            assert(values[k] == values.drop_last()[k]);
            assert(values[k] != values[values.len() - 1]);
        }
        lemma_sum_counts_unchanged(s, values.drop_last());
    } else {
        assert(count_of(s, vl) == count_of(s.drop_last(), vl));
        let j = choose|j: int| 0 <= j < values.len() && values[j] == s.last();
        assert(j < values.len() - 1);
        assert(values.drop_last()[j] == s.last());
        assert(contains_value(values.drop_last(), s.last()));
        lemma_sum_counts_step(s, values.drop_last());
    }
}

proof fn lemma_sum_counts_covered(s: Seq<nat>, values: Seq<nat>)
    requires
        forall|a: int, b: int| 0 <= a < b < values.len() ==> values[a] != values[b],
        forall|j: int| 0 <= j < s.len() ==> contains_value(values, #[trigger] s[j]),
    ensures
        sum_counts(s, values) == s.len(),
    decreases s.len(),
{
    if s.len() == 0 {
        lemma_sum_counts_empty(s, values);
    } else {
        let pre = s.drop_last();
        assert forall|j: int| 0 <= j < pre.len() implies contains_value(
            values,
            #[trigger] pre[j],
        ) by {
            assert(pre[j] == s[j]);
        }
        lemma_sum_counts_covered(pre, values);
        assert(contains_value(values, s[s.len() - 1]));
        lemma_sum_counts_step(s, values);
    }
}

proof fn lemma_sum_parallel(s: Seq<nat>, values: Seq<nat>, mults: Seq<usize>)
    requires
        mults.len() == values.len(),
        forall|k: int| 0 <= k < values.len() ==> mults[k] == count_of(s, #[trigger] values[k]),
    ensures
        sum_usizes(mults) == sum_counts(s, values),
    decreases values.len(),
{
    if values.len() > 0 {
        assert forall|k: int| 0 <= k < values.drop_last().len() implies mults.drop_last()[k]
            == count_of(s, #[trigger] values.drop_last()[k]) by {
            assert(values.drop_last()[k] == values[k]);
            assert(mults.drop_last()[k] == mults[k]);
        }
        lemma_sum_parallel(s, values.drop_last(), mults.drop_last());
        assert(mults[mults.len() - 1] == count_of(s, values[values.len() - 1]));
    }
}

/// Law: the multiplicities of the distinct values of an input sum to the
/// input's length — every input position is counted exactly once. `values`
/// and `mults` are as the builder hands them out: the distinct values of
/// `s`, strictly ascending, and their occurrence counts.
pub proof fn lemma_multiplicities_sum(s: Seq<nat>, values: Seq<nat>, mults: Seq<usize>)
    requires
        strictly_ascending_nats(values),
        mults.len() == values.len(),
        forall|k: int| 0 <= k < values.len() ==> mults[k] == count_of(s, #[trigger] values[k]),
        forall|v: nat| #[trigger] contains_value(values, v) <==> contains_value(s, v),
    ensures
        sum_usizes(mults) == s.len(),
{
    assert forall|a: int, b: int| 0 <= a < b < values.len() implies values[a] != values[b] by {
        assert(values[a] < values[b]);
    }
    assert forall|j: int| 0 <= j < s.len() implies contains_value(values, #[trigger] s[j]) by {
        assert(contains_value(s, s[j]));
    }
    lemma_sum_counts_covered(s, values);
    lemma_sum_parallel(s, values, mults);
}

/// Law (round trip): with a well-formed witness, verifying each entry's
/// value in ascending order consumes the witness completely. At step `k`
/// the residual witness is the entries from `k` on: the verifier finds the
/// value at the head, so it succeeds, and removing it leaves exactly the
/// entries from `k + 1` on; its cursor starts with that value's full
/// position list, one position per occurrence, so after as many walker
/// steps the exhaustion assertion holds. After the last step no entry
/// remains.
pub proof fn lemma_round_trip(es: Seq<WitnessEntry>, k: int)
    requires
        forall|a: int, b: int| 0 <= a < b < es.len() ==> es[a].value@ < es[b].value@,
        forall|a: int| 0 <= a < es.len() ==> entry_wf(#[trigger] es[a]),
        0 <= k < es.len(),
    ensures
        find_index(es.skip(k), es[k].value@) == 0,
        es.skip(k).remove(0) == es.skip(k + 1),
        es[k].positions@.reverse().len() == es[k].positions@.len(),
        es[k].positions@.len() >= 1,
        es.skip(es.len() as int).len() == 0,
{
    assert(es.skip(k)[0] == es[k]);
    assert(es.skip(k).remove(0) =~= es.skip(k + 1));
    assert(entry_wf(es[k]));
}

/// The walker's last-consumed counter before the step that consumes
/// `ps[j]`: zero before the first step, one past the previously consumed
/// position after that.
pub open spec fn counter_after(ps: Seq<int>, j: int) -> int {
    if j == 0 {
        0
    } else {
        ps[j - 1] + 1
    }
}

/// The gap the walker emits when it consumes `ps[j]`.
pub open spec fn gap_at(ps: Seq<int>, j: int) -> int {
    ps[j] - counter_after(ps, j)
}

/// Law (gaps): walking strictly ascending non-negative positions, the
/// first gap equals the first position, each later gap is the distance to
/// the previous position less one, every gap is non-negative, and after
/// each step the counter stands one past the consumed position.
pub proof fn lemma_gaps(ps: Seq<int>)
    requires
        forall|a: int, b: int| 0 <= a < b < ps.len() ==> ps[a] < ps[b],
        forall|a: int| 0 <= a < ps.len() ==> ps[a] >= 0,
    ensures
        ps.len() > 0 ==> gap_at(ps, 0) == ps[0],
        forall|j: int| 1 <= j < ps.len() ==> #[trigger] gap_at(ps, j) == ps[j] - ps[j - 1] - 1,
        forall|j: int| 0 <= j < ps.len() ==> #[trigger] gap_at(ps, j) >= 0,
        forall|j: int| 0 <= j < ps.len() ==> counter_after(ps, j + 1) == #[trigger] ps[j] + 1,
{
    assert forall|j: int| 0 <= j < ps.len() implies #[trigger] gap_at(ps, j) >= 0 by {
        if j > 0 {
            assert(ps[j - 1] < ps[j]);
        }
    }
}

/// Law (no double verification): once a value's entry has been removed
/// from the witness, a second verifier call for the same value finds no
/// entry, and so fails.
pub proof fn lemma_verify_twice_fails(es: Seq<WitnessEntry>, v: nat)
    requires
        forall|a: int, b: int| 0 <= a < b < es.len() ==> es[a].value@ < es[b].value@,
        find_index(es, v) >= 0,
    ensures
        find_index(es.remove(find_index(es, v)), v) == -1,
{
    let i = find_index(es, v);
    lemma_find_index_sound(es, v);
    es.remove_ensures(i);
    let rest = es.remove(i);
    assert forall|k: int| 0 <= k < rest.len() implies (#[trigger] rest[k]).value@ != v by {
        if k < i {
            assert(rest[k] == es[k]);
            assert(es[k].value@ < es[i].value@);
        } else {
            assert(rest[k] == es[k + 1]);
            assert(es[i].value@ < es[k + 1].value@);
        }
    }
    lemma_find_index_absent(rest, v);
}

} // verus!
