use vstd::prelude::*;

verus! {

/// Why results could not be put back in input order.
#[derive(Debug, Clone, Copy, PartialEq, Eq, Structural)]
pub enum ReassemblyError {
    /// A result carried a position past the end of the output.
    IndexOutOfRange,
    /// A second result arrived for a position that was already written.
    DuplicateIndex,
    /// Some position received no result.
    Incomplete,
    /// The result channel closed before every position was written.
    Disconnected,
}

/// Number of written slots.
pub open spec fn count_some<R>(s: Seq<Option<R>>) -> nat
    decreases s.len(),
{
    if s.len() == 0 {
        0
    } else {
        count_some(s.drop_last()) + if s.last() is Some { 1nat } else { 0nat }
    }
}

/// Every slot is written.
pub open spec fn all_written<R>(s: Seq<Option<R>>) -> bool {
    forall|i: int| 0 <= i < s.len() ==> (#[trigger] s[i]) is Some
}

proof fn lemma_count_bounded<R>(s: Seq<Option<R>>)
    ensures
        count_some(s) <= s.len(),
        count_some(s) == s.len() <==> all_written(s),
    decreases s.len(),
{
    if s.len() > 0 {
        lemma_count_bounded(s.drop_last());
        if all_written(s) {
            assert forall|i: int| 0 <= i < s.drop_last().len() implies (#[trigger] s.drop_last()[i]) is Some by {
                assert(s[i] is Some);
            }
        }
        if count_some(s) == s.len() {
            assert forall|i: int| 0 <= i < s.len() implies (#[trigger] s[i]) is Some by {
                if i < s.len() - 1 {
                    assert(s.drop_last()[i] == s[i]);
                }
            }
        }
    }
}

proof fn lemma_count_write<R>(s: Seq<Option<R>>, i: int, v: R)
    requires
        0 <= i < s.len(),
        s[i] is None,
    ensures
        count_some(s.update(i, Some(v))) == count_some(s) + 1,
    decreases s.len(),
{
    let t = s.update(i, Some(v));
    if i == s.len() - 1 {
        assert(t.drop_last() =~= s.drop_last());
    } else {
        assert(t.drop_last() =~= s.drop_last().update(i, Some(v)));
        lemma_count_write(s.drop_last(), i, v);
    }
}

/// Output buffer of the pool strategy: one slot per input position, each
/// written at most once, by the position a result carries.
pub struct Reassembly<R> {
    slots: Vec<Option<R>>,
    written: usize,
}

impl<R> View for Reassembly<R> {
    type V = Seq<Option<R>>;

    closed spec fn view(&self) -> Seq<Option<R>> {
        self.slots@
    }
}

impl<R> Reassembly<R> {
    /// The count of written slots is kept alongside the slots.
    pub closed spec fn wf(&self) -> bool {
        self.written == count_some(self.slots@)
    }

    /// An output buffer of `len` slots, none written.
    pub fn new(len: usize) -> (r: Self)
        ensures
            r.wf(),
            r@.len() == len,
            forall|i: int| 0 <= i < len ==> (#[trigger] r@[i]) is None,
            count_some(r@) == 0,
    {
        let mut slots: Vec<Option<R>> = Vec::with_capacity(len);
        for i in 0..len
            invariant
                slots@.len() == i,
                forall|j: int| 0 <= j < i ==> (#[trigger] slots@[j]) is None,
                count_some(slots@) == 0,
        {
            proof {
                assert(slots@.push(None).drop_last() =~= slots@);
            }
            slots.push(None);
        }
        Reassembly { slots, written: 0 }
    }

    /// Number of slots, the length of the input.
    pub fn len(&self) -> (r: usize)
        ensures
            r == self@.len(),
    {
        self.slots.len()
    }

    /// Whether every slot has been written.
    pub fn is_complete(&self) -> (r: bool)
        requires
            self.wf(),
        ensures
            r == all_written(self@),
    {
        proof {
            lemma_count_bounded(self.slots@);
        }
        self.written == self.slots.len()
    }

    /// Writes `value` into slot `index`. Refuses a position past the end and
    /// a slot that was already written; then nothing changes.
    pub fn place(&mut self, index: usize, value: R) -> (r: Result<(), ReassemblyError>)
        requires
            old(self).wf(),
        ensures
            final(self).wf(),
            index >= old(self)@.len() ==> r == Err::<(), ReassemblyError>(ReassemblyError::IndexOutOfRange)
                && final(self)@ == old(self)@,
            index < old(self)@.len() && old(self)@[index as int] is Some
                ==> r == Err::<(), ReassemblyError>(ReassemblyError::DuplicateIndex) && final(self)@ == old(self)@,
            index < old(self)@.len() && old(self)@[index as int] is None ==> r is Ok
                && final(self)@ == old(self)@.update(index as int, Some(value))
                && count_some(final(self)@) == count_some(old(self)@) + 1,
    {
        if index >= self.slots.len() {
            return Err(ReassemblyError::IndexOutOfRange);
        }
        if self.slots[index].is_some() {
            return Err(ReassemblyError::DuplicateIndex);
        }
        proof {
            lemma_count_write(self.slots@, index as int, value);
            lemma_count_bounded(self.slots@);
        }
        self.slots.set(index, Some(value));
        self.written = self.written + 1;
        Ok(())
    }

    /// The results in input order, once every slot is written.
    pub fn finish(self) -> (r: Result<Vec<R>, ReassemblyError>)
        requires
            self.wf(),
        ensures
            r is Ok <==> all_written(self@),
            !all_written(self@) ==> r == Err::<Vec<R>, ReassemblyError>(ReassemblyError::Incomplete),
            r is Ok ==> r.unwrap()@.len() == self@.len(),
            r is Ok ==> forall|i: int| 0 <= i < self@.len() ==> self@[i] == Some(#[trigger] r.unwrap()@[i]),
    {
        if !self.is_complete() {
            return Err(ReassemblyError::Incomplete);
        }
        let ghost s = self.slots@;
        let mut out: Vec<R> = Vec::with_capacity(self.slots.len());
        for slot in it: self.slots.into_iter()
            invariant
                it.seq() == s,
                all_written(s),
                out@.len() == it.index(),
                forall|i: int| 0 <= i < it.index() ==> s[i] == Some(#[trigger] out@[i]),
        {
            match slot {
                Some(v) => out.push(v),
                None => {
                    proof {
                        assert(s[it.index() as int] is Some);
                    }
                },
            }
        }
        Ok(out)
    }
}

/// The positions the results carry are exactly `0..len`, each once, in some
/// order.
pub open spec fn indices_exact<R>(arrivals: Seq<(usize, R)>, len: nat) -> bool {
    &&& arrivals.len() == len
    &&& forall|j: int| 0 <= j < arrivals.len() ==> (#[trigger] arrivals[j]).0 < len
    &&& forall|j1: int, j2: int|
        0 <= j1 < arrivals.len() && 0 <= j2 < arrivals.len() && j1 != j2
            ==> (#[trigger] arrivals[j1]).0 != (#[trigger] arrivals[j2]).0
}

/// Some result carries position `i` and value `v`.
pub open spec fn arrived<R>(arrivals: Seq<(usize, R)>, i: int, v: R) -> bool {
    exists|j: int| 0 <= j < arrivals.len() && (#[trigger] arrivals[j]).0 == i && arrivals[j].1 == v
}

/// `out` holds, at each position, the value of a result carrying that
/// position.
pub open spec fn placed_by<R>(arrivals: Seq<(usize, R)>, out: Seq<R>, len: nat) -> bool {
    &&& out.len() == len
    &&& forall|i: int| 0 <= i < len ==> arrived(arrivals, i, #[trigger] out[i])
}

/// Puts results that arrived in any order back in input order: the result
/// carrying position `i` lands in slot `i`. Succeeds exactly when the
/// positions are `0..len`, each once.
pub fn reassemble<R>(len: usize, arrivals: Vec<(usize, R)>) -> (r: Result<Vec<R>, ReassemblyError>)
    ensures
        r is Ok <==> indices_exact(arrivals@, len as nat),
        r is Ok ==> placed_by(arrivals@, r.unwrap()@, len as nat),
        r is Ok ==> forall|j: int| 0 <= j < arrivals@.len()
            ==> r.unwrap()@[(#[trigger] arrivals@[j]).0 as int] == arrivals@[j].1,
{
    let ghost a = arrivals@;
    let mut buffer: Reassembly<R> = Reassembly::new(len);
    for item in it: arrivals.into_iter()
        invariant
            it.seq() == a,
            buffer.wf(),
            buffer@.len() == len,
            count_some(buffer@) == it.index(),
            forall|i: int| 0 <= i < len ==> ((#[trigger] buffer@[i]) is Some <==> exists|j: int|
                0 <= j < it.index() && (#[trigger] a[j]).0 == i),
            forall|j: int| 0 <= j < it.index() ==> (#[trigger] a[j]).0 < len
                && buffer@[a[j].0 as int] == Some(a[j].1),
            forall|j1: int, j2: int|
                0 <= j1 < it.index() && 0 <= j2 < it.index() && j1 != j2
                    ==> (#[trigger] a[j1]).0 != (#[trigger] a[j2]).0,
    {
        let ghost k = it.index() as int;
        let (index, value) = item;
        let ghost before = buffer@;
        let placed = buffer.place(index, value);
        if placed.is_err() {
            proof {
                if index < len {
                    let j = choose|j: int| 0 <= j < k && (#[trigger] a[j]).0 == index;
                    assert(a[j].0 == a[k].0);
                }
            }
            return Err(placed.unwrap_err());
        }
        proof {
            assert forall|i: int| 0 <= i < len implies ((#[trigger] buffer@[i]) is Some <==> exists|j: int|
                0 <= j < k + 1 && (#[trigger] a[j]).0 == i) by {
                if i == index {
                    assert(a[k].0 == i);
                } else if buffer@[i] is Some {
                    let j = choose|j: int| 0 <= j < k && (#[trigger] a[j]).0 == i;
                    assert(0 <= j < k + 1 && a[j].0 == i);
                }
            }
            assert forall|j: int| 0 <= j < k implies (#[trigger] a[j]).0 != index by {
                if a[j].0 == index {
                    assert(before[index as int] is Some);
                }
            }
        }
    }
    proof {
        lemma_count_bounded(buffer@);
    }
    let ghost slots = buffer@;
    let out = buffer.finish();
    proof {
        if out is Ok {
            let v = out.unwrap()@;
            assert forall|i: int| 0 <= i < len implies arrived(a, i, #[trigger] v[i]) by {
                assert(slots[i] == Some(v[i]));
                assert(slots[i] is Some);
                let j = choose|j: int| 0 <= j < a.len() && (#[trigger] a[j]).0 == i;
                assert(slots[a[j].0 as int] == Some(a[j].1));
                assert(a[j].1 == v[i]);
            }
            assert(v.len() == len);
            assert(placed_by(a, v, len as nat));
        } else {
            if indices_exact(a, len as nat) {
                assert forall|i: int| 0 <= i < len implies (#[trigger] slots[i]) is Some by {
                }
            }
        }
    }
    out
}

} // verus!
