//! The pre-compile program: named entries that mirror the bytecode,
//! with forward references resolved through placeholders, and the
//! dependency-ordered lowering to a compiled program.

use vstd::prelude::*;

use crate::permutation::Permutation;

verus! {

/// Refers to one named entry of a pre-compile program.
#[derive(Copy, Clone, Debug, PartialEq, Eq, Structural, Hash, PartialOrd, Ord)]
pub struct EntryRef {
    pub index: usize,
}

impl EntryRef {
    /// Wraps an index.
    pub fn new(index: usize) -> (r: Self)
        ensures
            r == (EntryRef { index }),
    {
        EntryRef { index }
    }

    /// Whether the entry this reference names in the given program is
    /// a group.
    pub fn is_group_in(&self, pm: &PreCompileProgram) -> (r: bool)
        ensures
            r == (self.index < pm.entries@.len() && pm.entries@[self.index as int] is Group),
    {
        if self.index < pm.entries.len() {
            match &pm.entries[self.index] {
                Entry::Group { .. } => true,
                _ => false,
            }
        } else {
            false
        }
    }
}

/// One named entry: an instruction over names, a group of names, or a
/// placeholder for an external function to be attached at compile
/// time.
#[derive(Debug)]
pub enum Entry {
    /// Reorder the context, then continue at another entry.
    Jmp { cont: EntryRef, per: Permutation },
    /// Split the context, close the rest over `callcont`, continue at
    /// `callee`.
    Call { callee: EntryRef, callcnt: u8, callcont: EntryRef },
    /// Re-enter the closure on top of the context at a variant.
    Ret { variant: u8 },
    /// A group of entries, one per variant.
    Group { elements: Vec<EntryRef> },
    /// A placeholder resolved against the host's externals at compile
    /// time.
    Extern { name: String },
}

/// Whether every reference of an entry stays below a bound.
pub open spec fn refs_ok(e: Entry, n: nat) -> bool {
    match e {
        Entry::Jmp { cont, .. } => cont.index < n,
        Entry::Call { callee, callcont, .. } => callee.index < n && callcont.index < n,
        Entry::Ret { .. } => true,
        Entry::Group { elements } => forall|k: int|
            0 <= k < elements@.len() ==> (#[trigger] elements@[k]).index < n,
        Entry::Extern { .. } => true,
    }
}

/// A bound on references loosens upward.
pub proof fn lemma_refs_ok_mono(e: Entry, n: nat, m: nat)
    requires
        refs_ok(e, n),
        n <= m,
    ensures
        refs_ok(e, m),
{
}

/// The position of the first name equal to `name`, or -1.
pub open spec fn name_index_rec(names: Seq<String>, name: Seq<char>) -> int
    decreases names.len(),
{
    if names.len() == 0 {
        -1
    } else if names[0]@ == name {
        0
    } else {
        let r = name_index_rec(names.drop_first(), name);
        if r < 0 {
            -1
        } else {
            r + 1
        }
    }
}

/// What `name_index_rec` finds: either the name does not occur, or
/// the result is its first position.
pub proof fn lemma_name_index_rec(names: Seq<String>, name: Seq<char>)
    ensures
        name_index_rec(names, name) == -1 ==> (forall|k: int|
            0 <= k < names.len() ==> names[k]@ != name),
        name_index_rec(names, name) != -1 ==> {
            let fi = name_index_rec(names, name);
            &&& 0 <= fi < names.len()
            &&& names[fi]@ == name
            &&& (forall|k: int| 0 <= k < fi ==> names[k]@ != name)
        },
    decreases names.len(),
{
    if names.len() == 0 {
    } else if names[0]@ == name {
    } else {
        lemma_name_index_rec(names.drop_first(), name);
        assert(forall|k: int| 1 <= k < names.len() ==> names[k] == names.drop_first()[k - 1]);
    }
}

/// A found position does not move when names are appended.
pub proof fn lemma_name_index_extend(names: Seq<String>, more: Seq<String>, name: Seq<char>)
    requires
        name_index_rec(names, name) >= 0,
    ensures
        name_index_rec(names + more, name) == name_index_rec(names, name),
    decreases names.len(),
{
    if names.len() == 0 {
    } else if names[0]@ == name {
        assert((names + more)[0] == names[0]);
    } else {
        lemma_name_index_extend(names.drop_first(), more, name);
        assert((names + more).drop_first() =~= names.drop_first() + more);
        assert((names + more)[0] == names[0]);
    }
}

/// A pre-compile program: entries in definition order, the name of
/// each entry at the same position, and the names marked for export.
#[derive(Debug)]
pub struct PreCompileProgram {
    pub names: Vec<String>,
    pub entries: Vec<Entry>,
    pub exports: Vec<String>,
}

impl PreCompileProgram {
    /// The program is well formed: one distinct name per entry, every
    /// reference within bounds, and exported names defined and
    /// distinct.
    pub open spec fn wf(self) -> bool {
        &&& self.names@.len() == self.entries@.len()
        &&& (forall|i: int, j: int|
            0 <= i < j < self.names@.len() ==> self.names@[i]@ != self.names@[j]@)
        &&& (forall|i: int|
            0 <= i < self.entries@.len() ==> refs_ok(
                #[trigger] self.entries@[i],
                self.entries@.len() as nat,
            ))
        &&& (forall|k: int|
            0 <= k < self.exports@.len() ==> name_index_rec(
                self.names@,
                (#[trigger] self.exports@[k])@,
            ) >= 0)
        &&& (forall|k1: int, k2: int|
            0 <= k1 < k2 < self.exports@.len() ==> self.exports@[k1]@ != self.exports@[k2]@)
        &&& (forall|i: int|
            0 <= i < self.entries@.len() ==> ((#[trigger] self.entries@[i]) matches Entry::Extern {
                name: nm,
            } ==> nm@ == self.names@[i]@))
    }

    /// The position of a name, if it is defined.
    pub open spec fn spec_find_name(self, name: Seq<char>) -> int {
        name_index_rec(self.names@, name)
    }

    /// Looks a name up.
    pub fn find_name_idx(&self, name: &str) -> (r: Option<usize>)
        ensures
            (match r {
                Some(i) => self.spec_find_name(name@) == i,
                None => self.spec_find_name(name@) == -1,
            }),
    {
        proof {
            lemma_name_index_rec(self.names@, name@);
        }
        let key = name.to_owned();
        let n = self.names.len();
        let mut i: usize = 0;
        while i < n && !(self.names[i] == key)
            invariant
                i <= n,
                n == self.names@.len(),
                key@ == name@,
                forall|k: int| 0 <= k < i ==> self.names@[k]@ != name@,
            decreases n - i,
        {
            i = i + 1;
        }
        proof {
            lemma_name_index_rec(self.names@, name@);
        }
        if i == n {
            None
        } else {
            Some(i)
        }
    }

    /// Defines an entry under a name: an existing name is redefined in
    /// place, keeping its reference; a new name is appended.
    fn define_ent_internal(&mut self, label: &str, ent: Entry) -> (r: EntryRef)
        requires
            old(self).wf(),
            refs_ok(ent, old(self).entries@.len() as nat),
            (ent matches Entry::Extern { name: nm } ==> nm@ == label@),
        ensures
            final(self).wf(),
            final(self).exports == old(self).exports,
            ({
                let i = old(self).spec_find_name(label@);
                if i >= 0 {
                    &&& final(self).names == old(self).names
                    &&& final(self).entries@ == old(self).entries@.update(i, ent)
                    &&& r.index == i
                } else {
                    &&& final(self).names@.len() == old(self).names@.len() + 1
                    &&& (forall|k: int|
                        0 <= k < old(self).names@.len() ==> final(self).names@[k] == old(
                            self,
                        ).names@[k])
                    &&& final(self).names@.last()@ == label@
                    &&& final(self).entries@ == old(self).entries@.push(ent)
                    &&& r.index == old(self).entries@.len()
                }
            }),
            final(self).spec_find_name(label@) == r.index,
            r.index < final(self).entries@.len(),
    {
        proof {
            lemma_name_index_rec(old(self).names@, label@);
        }
        let found = self.find_name_idx(label);
        match found {
            Some(i) => {
                set_vec_at(&mut self.entries, i, ent);
                proof {
                    lemma_refs_ok_mono(
                        self.entries@[i as int],
                        old(self).entries@.len() as nat,
                        self.entries@.len() as nat,
                    );
                    assert forall|t: int|
                        0 <= t < self.entries@.len() implies refs_ok(
                        #[trigger] self.entries@[t],
                        self.entries@.len() as nat,
                    ) by {
                        if t != i {
                            assert(self.entries@[t] == old(self).entries@[t]);
                        }
                    }
                }
                EntryRef { index: i }
            },
            None => {
                let idx = self.entries.len();
                self.names.push(label.to_owned());
                self.entries.push(ent);
                proof {
                    let n1 = self.names@;
                    let n0 = old(self).names@;
                    assert(n1 =~= n0 + seq![n1.last()]);
                    assert forall|k: int|
                        0 <= k < self.exports@.len() implies name_index_rec(
                        n1,
                        (#[trigger] self.exports@[k])@,
                    ) >= 0 by {
                        lemma_name_index_extend(n0, seq![n1.last()], self.exports@[k]@);
                    }
                    assert forall|t: int|
                        0 <= t < self.entries@.len() implies refs_ok(
                        #[trigger] self.entries@[t],
                        self.entries@.len() as nat,
                    ) by {
                        if t < old(self).entries@.len() {
                            lemma_refs_ok_mono(
                                self.entries@[t],
                                old(self).entries@.len() as nat,
                                self.entries@.len() as nat,
                            );
                        } else {
                            lemma_refs_ok_mono(
                                ent,
                                old(self).entries@.len() as nat,
                                self.entries@.len() as nat,
                            );
                        }
                    }
                    assert(name_index_rec(n1, label@) == idx) by {
                        lemma_name_index_rec(n1, label@);
                        if name_index_rec(n1, label@) < 0 {
                            assert(n1[idx as int]@ == label@);
                        } else {
                            let fi = name_index_rec(n1, label@);
                            if fi < idx {
                                assert(n1[fi] == n0[fi]);
                                lemma_name_index_rec(n0, label@);
                            }
                        }
                    }
                }
                EntryRef { index: idx }
            },
        }
    }

    /// Finds a name or defines it as an external placeholder.
    fn define_extern_or_entry(&mut self, name: &str) -> (r: EntryRef)
        requires
            old(self).wf(),
        ensures
            final(self).wf(),
            final(self).exports == old(self).exports,
            ({
                let i = old(self).spec_find_name(name@);
                if i >= 0 {
                    &&& final(self).names == old(self).names
                    &&& final(self).entries == old(self).entries
                    &&& r.index == i
                } else {
                    &&& final(self).names@.len() == old(self).names@.len() + 1
                    &&& (forall|k: int|
                        0 <= k < old(self).names@.len() ==> final(self).names@[k] == old(
                            self,
                        ).names@[k])
                    &&& final(self).names@.last()@ == name@
                    &&& final(self).entries@.len() == old(self).entries@.len() + 1
                    &&& (forall|k: int|
                        0 <= k < old(self).entries@.len() ==> final(self).entries@[k] == old(
                            self,
                        ).entries@[k])
                    &&& (final(self).entries@.last() matches Entry::Extern { name: nm }
                        && nm@ == name@)
                    &&& r.index == old(self).entries@.len()
                }
            }),
            final(self).spec_find_name(name@) == r.index,
            r.index < final(self).entries@.len(),
    {
        match self.find_name_idx(name) {
            Some(i) => {
                proof {
                    lemma_name_index_rec(self.names@, name@);
                }
                EntryRef { index: i }
            },
            None => {
                let ent = Entry::Extern { name: name.to_owned() };
                self.define_ent_internal(name, ent)
            },
        }
    }
}

impl Default for PreCompileProgram {
    /// An empty pre-compile program.
    fn default() -> (r: PreCompileProgram)
        ensures
            r.wf(),
            r.names@.len() == 0,
            r.entries@.len() == 0,
            r.exports@.len() == 0,
    {
        PreCompileProgram { names: Vec::new(), entries: Vec::new(), exports: Vec::new() }
    }
}

impl PreCompileProgram {
    /// Defines a jump: reorder the context by `per`, then continue at
    /// the entry named `cont`, creating it as a placeholder if it is
    /// not yet defined.
    pub fn define_jmp(&mut self, label: &str, cont: &str, per: Permutation) -> (r: EntryRef)
        requires
            old(self).wf(),
        ensures
            final(self).wf(),
            final(self).exports == old(self).exports,
            forall|k: int|
                0 <= k < old(self).names@.len() ==> final(self).names@[k] == old(self).names@[k],
            old(self).names@.len() <= final(self).names@.len(),
            r.index < final(self).entries@.len(),
            final(self).spec_find_name(label@) == r.index,
            final(self).spec_find_name(cont@) >= 0,
            (final(self).entries@[r.index as int] matches Entry::Jmp { cont: c, per: p } && p
                == per && c.index == final(self).spec_find_name(cont@)),
            forall|i: int|
                0 <= i < old(self).entries@.len() && i != r.index ==> final(self).entries@[i]
                    == old(self).entries@[i],
            forall|t: int|
                old(self).entries@.len() <= t < final(self).entries@.len() && t != r.index ==> ((
                #[trigger] final(self).entries@[t]) matches Entry::Extern { name: nm } && nm@
                    == final(self).names@[t]@),
            forall|t: int|
                old(self).names@.len() <= t < final(self).names@.len() ==> ((
                #[trigger] final(self).names@[t])@ == label@ || final(self).names@[t]@ == cont@)
                    && old(self).spec_find_name(final(self).names@[t]@) == -1,
            old(self).spec_find_name(label@) >= 0 ==> r.index == old(self).spec_find_name(label@),
            old(self).spec_find_name(label@) < 0 ==> r.index + 1 == final(self).entries@.len(),
    {
        proof {
            lemma_name_index_rec(old(self).names@, cont@);
            lemma_name_index_rec(old(self).names@, label@);
        }
        let cref = self.define_extern_or_entry(cont);
        let ghost names_mid = self.names@;
        proof {
            lemma_name_index_rec(self.names@, cont@);
            lemma_name_index_rec(self.names@, label@);
            if old(self).spec_find_name(label@) >= 0 {
                lemma_find_stable(old(self).names@, names_mid, label@);
            }
        }
        let r = self.define_ent_internal(label, Entry::Jmp { cont: cref, per });
        proof {
            lemma_find_stable(names_mid, self.names@, cont@);
        }
        r
    }

    /// Defines a call: keep `callcnt` values, close the rest over the
    /// entry named `callcont`, then continue at `callee`; undefined
    /// names are created as placeholders.
    pub fn define_call(&mut self, label: &str, callee: &str, callcnt: u8, callcont: &str) -> (r:
        EntryRef)
        requires
            old(self).wf(),
        ensures
            final(self).wf(),
            final(self).exports == old(self).exports,
            forall|k: int|
                0 <= k < old(self).names@.len() ==> final(self).names@[k] == old(self).names@[k],
            old(self).names@.len() <= final(self).names@.len(),
            r.index < final(self).entries@.len(),
            final(self).spec_find_name(label@) == r.index,
            final(self).spec_find_name(callee@) >= 0,
            final(self).spec_find_name(callcont@) >= 0,
            (final(self).entries@[r.index as int] matches Entry::Call {
                callee: c1,
                callcnt: n,
                callcont: c2,
            } && n == callcnt && c1.index == final(self).spec_find_name(callee@) && c2.index
                == final(self).spec_find_name(callcont@)),
            forall|i: int|
                0 <= i < old(self).entries@.len() && i != r.index ==> final(self).entries@[i]
                    == old(self).entries@[i],
            forall|t: int|
                old(self).entries@.len() <= t < final(self).entries@.len() && t != r.index ==> ((
                #[trigger] final(self).entries@[t]) matches Entry::Extern { name: nm } && nm@
                    == final(self).names@[t]@),
            forall|t: int|
                old(self).names@.len() <= t < final(self).names@.len() ==> ((
                #[trigger] final(self).names@[t])@ == label@ || final(self).names@[t]@ == callee@
                    || final(self).names@[t]@ == callcont@) && old(self).spec_find_name(
                    final(self).names@[t]@,
                ) == -1,
            old(self).spec_find_name(label@) >= 0 ==> r.index == old(self).spec_find_name(label@),
            old(self).spec_find_name(label@) < 0 ==> r.index >= old(self).entries@.len(),
    {
        proof {
            lemma_name_index_rec(old(self).names@, callee@);
            lemma_name_index_rec(old(self).names@, callcont@);
            lemma_name_index_rec(old(self).names@, label@);
        }
        let c1 = self.define_extern_or_entry(callee);
        let ghost names_a = self.names@;
        proof {
            lemma_name_index_rec(self.names@, callee@);
            lemma_name_index_rec(self.names@, callcont@);
            lemma_name_index_rec(self.names@, label@);
            if old(self).spec_find_name(label@) >= 0 {
                lemma_find_stable(old(self).names@, names_a, label@);
            }
            if old(self).spec_find_name(callcont@) >= 0 {
                lemma_find_stable(old(self).names@, names_a, callcont@);
            }
        }
        let c2 = self.define_extern_or_entry(callcont);
        let ghost names_b = self.names@;
        proof {
            lemma_name_index_rec(self.names@, callcont@);
            lemma_name_index_rec(self.names@, label@);
            lemma_find_stable(names_a, names_b, callee@);
            if old(self).spec_find_name(label@) >= 0 {
                lemma_find_stable(old(self).names@, names_b, label@);
            }
        }
        let r = self.define_ent_internal(
            label,
            Entry::Call { callee: c1, callcnt, callcont: c2 },
        );
        proof {
            lemma_find_stable(names_b, self.names@, callee@);
            lemma_find_stable(names_b, self.names@, callcont@);
        }
        r
    }

    /// Defines a return: re-enter the closure on top of the context
    /// at `variant`.
    pub fn define_ret(&mut self, label: &str, variant: u8) -> (r: EntryRef)
        requires
            old(self).wf(),
        ensures
            final(self).wf(),
            final(self).exports == old(self).exports,
            forall|k: int|
                0 <= k < old(self).names@.len() ==> final(self).names@[k] == old(self).names@[k],
            old(self).names@.len() <= final(self).names@.len(),
            r.index < final(self).entries@.len(),
            final(self).spec_find_name(label@) == r.index,
            final(self).entries@[r.index as int] == (Entry::Ret { variant }),
            forall|i: int|
                0 <= i < old(self).entries@.len() && i != r.index ==> final(self).entries@[i]
                    == old(self).entries@[i],
            old(self).spec_find_name(label@) >= 0 ==> final(self).names == old(self).names
                && r.index == old(self).spec_find_name(label@),
            old(self).spec_find_name(label@) < 0 ==> final(self).names@.len() == old(
                self,
            ).names@.len() + 1 && final(self).names@.last()@ == label@ && r.index == old(
                self,
            ).entries@.len(),
    {
        self.define_ent_internal(label, Entry::Ret { variant })
    }

    /// Defines a group of entries, one per variant; undefined element
    /// names are created as placeholders.
    pub fn define_group(&mut self, label: &str, elements: &[&str]) -> (r: EntryRef)
        requires
            old(self).wf(),
        ensures
            final(self).wf(),
            final(self).exports == old(self).exports,
            forall|k: int|
                0 <= k < old(self).names@.len() ==> final(self).names@[k] == old(self).names@[k],
            old(self).names@.len() <= final(self).names@.len(),
            r.index < final(self).entries@.len(),
            final(self).spec_find_name(label@) == r.index,
            (final(self).entries@[r.index as int] matches Entry::Group { elements: es }
                && es@.len() == elements@.len() && (forall|k: int|
                0 <= k < es@.len() ==> (#[trigger] es@[k]).index == final(self).spec_find_name(
                    elements@[k]@,
                ))),
            forall|i: int|
                0 <= i < old(self).entries@.len() && i != r.index ==> final(self).entries@[i]
                    == old(self).entries@[i],
            forall|t: int|
                old(self).entries@.len() <= t < final(self).entries@.len() && t != r.index ==> ((
                #[trigger] final(self).entries@[t]) matches Entry::Extern { name: nm } && nm@
                    == final(self).names@[t]@),
            forall|t: int|
                old(self).names@.len() <= t < final(self).names@.len() ==> ((
                #[trigger] final(self).names@[t])@ == label@ || (exists|k: int|
                    0 <= k < elements@.len() && final(self).names@[t]@ == elements@[k]@)) && old(
                    self,
                ).spec_find_name(final(self).names@[t]@) == -1,
            old(self).spec_find_name(label@) >= 0 ==> r.index == old(self).spec_find_name(label@),
            old(self).spec_find_name(label@) < 0 ==> r.index >= old(self).entries@.len(),
    {
        proof {
            lemma_name_index_rec(old(self).names@, label@);
        }
        let mut refs: Vec<EntryRef> = Vec::new();
        let n = elements.len();
        let mut k: usize = 0;
        while k < n
            invariant
                old(self).wf(),
                self.wf(),
                k <= n,
                n == elements@.len(),
                refs@.len() == k,
                self.exports == old(self).exports,
                old(self).names@.len() <= self.names@.len(),
                forall|t: int|
                    0 <= t < old(self).names@.len() ==> self.names@[t] == old(self).names@[t],
                forall|t: int|
                    0 <= t < old(self).entries@.len() ==> self.entries@[t] == old(
                        self,
                    ).entries@[t],
                forall|t: int|
                    0 <= t < k ==> (#[trigger] refs@[t]).index == self.spec_find_name(
                        elements@[t]@,
                    ) && refs@[t].index < self.entries@.len(),
                forall|t: int|
                    old(self).entries@.len() <= t < self.entries@.len() ==> ((
                    #[trigger] self.entries@[t]) matches Entry::Extern { name: nm } && nm@
                        == self.names@[t]@),
                forall|t: int|
                    old(self).names@.len() <= t < self.names@.len() ==> (exists|m: int|
                        0 <= m < k && (#[trigger] self.names@[t])@ == elements@[m]@) && old(
                        self,
                    ).spec_find_name(self.names@[t]@) == -1,
            decreases n - k,
        {
            let ghost names_pre = self.names@;
            let e = self.define_extern_or_entry(elements[k]);
            proof {
                lemma_name_index_rec(self.names@, elements@[k as int]@);
                lemma_name_index_rec(old(self).names@, elements@[k as int]@);
                if old(self).spec_find_name(elements@[k as int]@) >= 0 {
                    lemma_find_stable(old(self).names@, names_pre, elements@[k as int]@);
                }
                assert forall|t: int| 0 <= t < k implies (#[trigger] refs@[t]).index
                    == self.spec_find_name(elements@[t]@) by {
                    assert(refs@[t].index >= 0);
                    lemma_find_stable(names_pre, self.names@, elements@[t]@);
                }
            }
            refs.push(e);
            k = k + 1;
        }
        proof {
            lemma_name_index_rec(self.names@, label@);
            if old(self).spec_find_name(label@) >= 0 {
                lemma_find_stable(old(self).names@, self.names@, label@);
            }
        }
        let ghost names_pre = self.names@;
        let ghost refs0 = refs@;
        let r = self.define_ent_internal(label, Entry::Group { elements: refs });
        proof {
            assert forall|t: int| 0 <= t < n implies name_index_rec(self.names@, elements@[t]@)
                == name_index_rec(names_pre, elements@[t]@) by {
                assert(refs0[t].index == name_index_rec(names_pre, elements@[t]@));
                lemma_find_stable(names_pre, self.names@, elements@[t]@);
            }
        }
        r
    }

    /// Marks a defined name as exported; a name marked twice stays
    /// marked once.
    pub fn set_export(&mut self, label: &str) -> (r: Result<(), crate::error::CompileError>)
        requires
            old(self).wf(),
        ensures
            final(self).wf(),
            final(self).names == old(self).names,
            final(self).entries == old(self).entries,
            old(self).spec_find_name(label@) < 0 ==> final(self).exports == old(self).exports
                && (match r {
                Err(crate::error::CompileError::NameNotFound(s)) => s@ == label@,
                _ => false,
            }),
            old(self).spec_find_name(label@) >= 0 ==> r == Ok::<
                (),
                crate::error::CompileError,
            >(()) && ((exists|t: int|
                0 <= t < old(self).exports@.len() && (#[trigger] old(self).exports@[t])@
                    == label@) ==> final(self).exports == old(self).exports) && (!(exists|t: int|
                0 <= t < old(self).exports@.len() && (#[trigger] old(self).exports@[t])@
                    == label@) ==> final(self).exports@.len() == old(self).exports@.len() + 1
                && (forall|t: int|
                0 <= t < old(self).exports@.len() ==> final(self).exports@[t] == old(
                    self,
                ).exports@[t]) && final(self).exports@.last()@ == label@),
    {
        match self.find_name_idx(label) {
            None => Err(crate::error::CompileError::NameNotFound(label.to_owned())),
            Some(_) => {
                let key = label.to_owned();
                let n = self.exports.len();
                let mut t: usize = 0;
                while t < n && !(self.exports[t] == key)
                    invariant
                        t <= n,
                        n == self.exports@.len(),
                        key@ == label@,
                        forall|m: int| 0 <= m < t ==> self.exports@[m]@ != label@,
                    decreases n - t,
                {
                    t = t + 1;
                }
                if t == n {
                    self.exports.push(key);
                    proof {
                        assert(forall|m: int|
                            0 <= m < old(self).exports@.len() ==> self.exports@[m] == old(
                                self,
                            ).exports@[m]);
                    }
                }
                Ok(())
            },
        }
    }

    /// Demotes a defined entry back to an external placeholder of the
    /// same name; an unknown name is left alone.
    pub fn delete_ent(&mut self, label: &str)
        requires
            old(self).wf(),
        ensures
            final(self).wf(),
            final(self).names == old(self).names,
            final(self).exports == old(self).exports,
            old(self).spec_find_name(label@) < 0 ==> final(self).entries == old(self).entries,
            old(self).spec_find_name(label@) >= 0 ==> final(self).entries@.len() == old(
                self,
            ).entries@.len() && (forall|i: int|
                0 <= i < old(self).entries@.len() && i != old(self).spec_find_name(label@)
                    ==> final(self).entries@[i] == old(self).entries@[i]) && (final(self).entries@[old(self).spec_find_name(label@)] matches Entry::Extern { name: nm }
                && nm@ == label@),
    {
        proof {
            lemma_name_index_rec(old(self).names@, label@);
        }
        match self.find_name_idx(label) {
            None => {},
            Some(i) => {
                set_vec_at(&mut self.entries, i, Entry::Extern { name: label.to_owned() });
                proof {
                    assert forall|t: int|
                        0 <= t < self.entries@.len() implies refs_ok(
                        #[trigger] self.entries@[t],
                        self.entries@.len() as nat,
                    ) by {
                        if t != i {
                            assert(self.entries@[t] == old(self).entries@[t]);
                        }
                    }
                }
            },
        }
    }

    /// The indices of the external placeholders among the first `n`
    /// entries, in ascending order.
    pub open spec fn externs_upto(entries: Seq<Entry>, n: int) -> Seq<int>
        decreases n,
    {
        if n <= 0 {
            Seq::empty()
        } else if entries[n - 1] is Extern {
            Self::externs_upto(entries, n - 1).push(n - 1)
        } else {
            Self::externs_upto(entries, n - 1)
        }
    }

    /// Lists the external placeholders: each name with its reference,
    /// in definition order.
    pub fn externs(&self) -> (r: Vec<(String, EntryRef)>)
        ensures
            ({
                let idxs = Self::externs_upto(self.entries@, self.entries@.len() as int);
                &&& r@.len() == idxs.len()
                &&& (forall|k: int|
                    0 <= k < idxs.len() ==> (#[trigger] r@[k]).1.index == idxs[k] && (
                    self.entries@[idxs[k]] matches Entry::Extern { name: nm } && r@[k].0@ == nm@))
            }),
    {
        let mut out: Vec<(String, EntryRef)> = Vec::new();
        let n = self.entries.len();
        let mut i: usize = 0;
        while i < n
            invariant
                i <= n,
                n == self.entries@.len(),
                ({
                    let idxs = Self::externs_upto(self.entries@, i as int);
                    &&& out@.len() == idxs.len()
                    &&& (forall|k: int|
                        0 <= k < idxs.len() ==> (#[trigger] out@[k]).1.index == idxs[k] && (
                        self.entries@[idxs[k]] matches Entry::Extern { name: nm } && out@[k].0@
                            == nm@))
                }),
            decreases n - i,
        {
            let ghost out_pre = out@;
            match &self.entries[i] {
                Entry::Extern { name } => {
                    out.push((name.clone(), EntryRef { index: i }));
                },
                _ => {},
            }
            proof {
                let pre = Self::externs_upto(self.entries@, i as int);
                if self.entries@[i as int] is Extern {
                    assert(Self::externs_upto(self.entries@, (i + 1) as int) == pre.push(
                        i as int,
                    ));
                    assert(out@ == out_pre.push(out@.last()));
                } else {
                    assert(Self::externs_upto(self.entries@, (i + 1) as int) == pre);
                }
            }
            i = i + 1;
        }
        out
    }
}

/// Whether an entry can be ordered, given which entries already are:
/// its references must all be ordered already, except that a call's
/// continuation may also be a group, since a group's own references
/// are resolved in a later pass.
pub open spec fn ready(p: PreCompileProgram, i: int, asg: Seq<bool>) -> bool {
    match p.entries@[i] {
        Entry::Jmp { cont, .. } => asg[cont.index as int],
        Entry::Call { callee, callcont, .. } => asg[callee.index as int] && (p.entries@[callcont.index as int] is Group
            || asg[callcont.index as int]),
        Entry::Ret { .. } => true,
        Entry::Group { elements } => forall|k: int|
            0 <= k < elements@.len() ==> asg[(#[trigger] elements@[k]).index as int],
        Entry::Extern { .. } => false,
    }
}

/// Which entries are ordered after `k` rounds: round 0 holds the
/// external placeholders, and each later round adds every entry that
/// is ready over the rounds before it.
pub open spec fn reach_rec(p: PreCompileProgram, k: nat) -> Seq<bool>
    decreases k,
{
    if k == 0 {
        Seq::new(p.entries@.len(), |i: int| p.entries@[i] is Extern)
    } else {
        let prev = reach_rec(p, (k - 1) as nat);
        Seq::new(p.entries@.len(), |i: int| prev[i] || ready(p, i, prev))
    }
}

/// Whether every entry can be ordered; as many rounds as there are
/// entries always suffice.
pub open spec fn all_sorted(p: PreCompileProgram) -> bool {
    forall|i: int| 0 <= i < p.entries@.len() ==> reach_rec(p, p.entries@.len() as nat)[i]
}

/// Whether a recorded level is assigned and lies below a bound.
pub open spec fn level_before(o: Option<usize>, bound: int) -> bool {
    match o {
        Some(l) => l < bound,
        None => false,
    }
}

/// The assigned-below-`bound` sets of a level table.
pub open spec fn asg_spec(levels: Seq<Option<usize>>, bound: int) -> Seq<bool> {
    Seq::new(levels.len(), |j: int| level_before(levels[j], bound))
}

impl PreCompileProgram {
    /// Whether entry `i` is ready over the levels assigned below
    /// `round`.
    fn entry_ready(&self, levels: &Vec<Option<usize>>, i: usize, round: usize) -> (r: bool)
        requires
            self.wf(),
            levels@.len() == self.entries@.len(),
            i < self.entries@.len(),
        ensures
            r == ready(*self, i as int, asg_spec(levels@, round as int)),
    {
        let ghost asg = asg_spec(levels@, round as int);
        match &self.entries[i] {
            Entry::Jmp { cont, .. } => is_before(&levels[cont.index], round),
            Entry::Call { callee, callcont, .. } => {
                if !is_before(&levels[callee.index], round) {
                    false
                } else {
                    let cc = callcont.index;
                    let is_grp = match &self.entries[cc] {
                        Entry::Group { .. } => true,
                        _ => false,
                    };
                    is_grp || is_before(&levels[cc], round)
                }
            },
            Entry::Ret { .. } => true,
            Entry::Group { elements } => {
                let m = elements.len();
                let mut k: usize = 0;
                let mut ok = true;
                while k < m && ok
                    invariant
                        k <= m,
                        m == elements@.len(),
                        self.wf(),
                        levels@.len() == self.entries@.len(),
                        i < self.entries@.len(),
                        self.entries@[i as int] matches Entry::Group { elements: es } && es
                            == *elements,
                        asg == asg_spec(levels@, round as int),
                        ok == (forall|t: int|
                            0 <= t < k ==> asg[(#[trigger] elements@[t]).index as int]),
                    decreases m - k,
                {
                    proof {
                        assert(refs_ok(self.entries@[i as int], self.entries@.len() as nat));
                        assert(elements@[k as int].index < self.entries@.len());
                    }
                    if !is_before(&levels[elements[k].index], round) {
                        ok = false;
                    }
                    k = k + 1;
                }
                ok
            },
            Entry::Extern { .. } => false,
        }
    }

    /// Assigns a dependency level to every entry that can be ordered:
    /// external placeholders at level 0, and each entry at the first
    /// round at which it is ready over the earlier levels.  An entry
    /// left without a level is caught in a circular reference.
    #[verifier::loop_isolation(false)]
    fn dependency_sort(&self) -> (levels: Vec<Option<usize>>)
        requires
            self.wf(),
        ensures
            levels@.len() == self.entries@.len(),
            forall|j: int|
                0 <= j < levels@.len() ==> (match #[trigger] levels@[j] {
                    Some(l) => l <= self.entries@.len() && (l == 0 <==> self.entries@[j]
                        is Extern) && (l >= 1 ==> ready(*self, j, asg_spec(levels@, l as int))),
                    None => !(self.entries@[j] is Extern),
                }),
            asg_spec(levels@, self.entries@.len() as int + 1) == reach_rec(
                *self,
                self.entries@.len() as nat,
            ),
    {
        let n = self.entries.len();
        let mut levels: Vec<Option<usize>> = Vec::new();
        let mut i: usize = 0;
        while i < n
            invariant
                i <= n,
                levels@.len() == i,
                forall|j: int|
                    0 <= j < i ==> levels@[j] == (if self.entries@[j] is Extern {
                        Some(0usize)
                    } else {
                        None::<usize>
                    }),
            decreases n - i,
        {
            let is_ext = match &self.entries[i] {
                Entry::Extern { .. } => true,
                _ => false,
            };
            if is_ext {
                levels.push(Some(0));
            } else {
                levels.push(None);
            }
            i = i + 1;
        }
        proof {
            assert(asg_spec(levels@, 1) =~= reach_rec(*self, 0));
        }
        let mut rd: usize = 0;
        while rd < n
            invariant
                rd <= n,
                levels@.len() == n,
                forall|j: int|
                    0 <= j < n ==> (match #[trigger] levels@[j] {
                        Some(l) => l <= rd && (l == 0 <==> self.entries@[j] is Extern) && (l
                            >= 1 ==> ready(*self, j, asg_spec(levels@, l as int))),
                        None => !(self.entries@[j] is Extern),
                    }),
                asg_spec(levels@, rd as int + 1) == reach_rec(*self, rd as nat),
            decreases n - rd,
        {
            let round = rd + 1;
            let ghost levels_pre = levels@;
            let ghost prev = asg_spec(levels@, round as int);
            let mut j: usize = 0;
            while j < n
                invariant
                    j <= n,
                    levels@.len() == n,
                    prev == asg_spec(levels_pre, round as int),
                    prev == reach_rec(*self, (round - 1) as nat),
                    asg_spec(levels@, round as int) == prev,
                    forall|t: int|
                        0 <= t < n ==> (match #[trigger] levels@[t] {
                            Some(l) => (l < round || l == round) && (l == 0
                                <==> self.entries@[t] is Extern) && (l >= 1 ==> ready(
                                *self,
                                t,
                                asg_spec(levels@, l as int),
                            )),
                            None => !(self.entries@[t] is Extern),
                        }),
                    forall|t: int|
                        0 <= t < n ==> (level_before(#[trigger] levels@[t], round as int + 1) == (
                        if t < j {
                            prev[t] || ready(*self, t, prev)
                        } else {
                            prev[t]
                        })),
                decreases n - j,
            {
                let assigned = match &levels[j] {
                    Some(_) => true,
                    None => false,
                };
                if !assigned {
                    let rdy = self.entry_ready(&levels, j, round);
                    if rdy {
                        set_vec_at(&mut levels, j, Some(round));
                        proof {
                            assert(asg_spec(levels@, round as int) =~= prev);
                            assert(ready(*self, j as int, asg_spec(levels@, round as int)));
                        }
                    }
                }
                j = j + 1;
            }
            proof {
                assert(asg_spec(levels@, round as int + 1) =~= reach_rec(*self, round as nat));
            }
            rd = rd + 1;
        }
        levels
    }
}

/// The names of a row of external entries.
pub open spec fn ext_names(externs: Seq<crate::entries::ExternEntry>) -> Seq<Seq<char>> {
    Seq::new(externs.len(), |k: int| externs[k].spec_name())
}

/// Whether one of the names equals `nm`.
pub open spec fn has_name(ns: Seq<Seq<char>>, nm: Seq<char>) -> bool {
    exists|k: int| 0 <= k < ns.len() && ns[k] == nm
}

/// The name of the external placeholder at `j`.
pub open spec fn ename(p: PreCompileProgram, j: int) -> Seq<char> {
    p.entries@[j]->Extern_name@
}

/// The first external placeholder, from `i` on, whose name is not
/// among the provided names; -1 when every one is provided.
pub open spec fn first_missing_rec(p: PreCompileProgram, ns: Seq<Seq<char>>, i: int) -> int
    decreases p.entries@.len() - i,
{
    if i < 0 || i >= p.entries@.len() {
        -1
    } else if p.entries@[i] is Extern && !has_name(ns, ename(p, i)) {
        i
    } else {
        first_missing_rec(p, ns, i + 1)
    }
}

/// What `first_missing_rec` finds.
pub proof fn lemma_first_missing_rec(p: PreCompileProgram, ns: Seq<Seq<char>>, i: int)
    requires
        0 <= i,
    ensures
        first_missing_rec(p, ns, i) == -1 || first_missing_rec(p, ns, i) >= i,
        first_missing_rec(p, ns, i) == -1 ==> (forall|j: int|
            i <= j < p.entries@.len() && (#[trigger] p.entries@[j]) is Extern ==> has_name(
                ns,
                ename(p, j),
            )),
        first_missing_rec(p, ns, i) >= 0 ==> {
            let r = first_missing_rec(p, ns, i);
            &&& i <= r < p.entries@.len()
            &&& p.entries@[r] is Extern
            &&& !has_name(ns, ename(p, r))
            &&& (forall|j: int|
                i <= j < r && (#[trigger] p.entries@[j]) is Extern ==> has_name(ns, ename(p, j)))
        },
    decreases p.entries@.len() - i,
{
    if i >= p.entries@.len() {
    } else if p.entries@[i] is Extern && !has_name(ns, ename(p, i)) {
    } else {
        lemma_first_missing_rec(p, ns, i + 1);
    }
}

/// Whether the entry at `j` is free of group misuse: its jump or
/// call target is not a group, and its elements, if it is a group,
/// are not groups themselves.
pub open spec fn entry_good(p: PreCompileProgram, j: int) -> bool {
    match p.entries@[j] {
        Entry::Jmp { cont, .. } => !(p.entries@[cont.index as int] is Group),
        Entry::Call { callee, .. } => !(p.entries@[callee.index as int] is Group),
        Entry::Group { elements } => forall|k: int|
            0 <= k < elements@.len() ==> !(p.entries@[(#[trigger] elements@[k]).index as int]
                is Group),
        _ => true,
    }
}

/// Whether some instruction names a group where only an instruction
/// or external can stand: a jump or call target that is a group, or a
/// group holding a group.  Such a reference cannot be lowered.
pub open spec fn bad_target(p: PreCompileProgram) -> bool {
    exists|j: int| 0 <= j < p.entries@.len() && !entry_good(p, j)
}

/// The entries, below `m`, that cannot be ordered, in ascending
/// order.
pub open spec fn unsorted_upto(p: PreCompileProgram, m: int) -> Seq<int>
    decreases m,
{
    if m <= 0 {
        Seq::empty()
    } else if !reach_rec(p, p.entries@.len() as nat)[m - 1] {
        unsorted_upto(p, m - 1).push(m - 1)
    } else {
        unsorted_upto(p, m - 1)
    }
}

/// Whether an entry's level marks it as handled before position
/// (`lv`, `i`) of the emission order.
pub open spec fn processed(levels: Seq<Option<usize>>, j: int, lv: int, i: int) -> bool {
    match levels[j] {
        Some(l) => l < lv || (l == lv && j < i),
        None => false,
    }
}

/// The reference a map slot holds; an empty slot reads as the
/// termination marker, which no slot ever holds.
pub open spec fn mapped_ref(o: Option<crate::coderef::CodeRef>) -> crate::coderef::CodeRef {
    match o {
        Some(c) => c,
        None => crate::coderef::CodeRef::Termination,
    }
}

/// The references recorded for a row of named entries, in order.
pub open spec fn resolved_group(
    cm: Seq<Option<crate::coderef::CodeRef>>,
    els: Seq<EntryRef>,
) -> Seq<crate::coderef::CodeRef> {
    Seq::new(els.len(), |k: int| mapped_ref(cm[els[k].index as int]))
}

/// Whether the entry at `j` was lowered faithfully: the reference
/// recorded for it names a row of the compiled program that says the
/// same thing, every name resolved through the recorded references.
pub open spec fn instr_lowered(
    p_ir: PreCompileProgram,
    prog: crate::program::Program,
    cm: Seq<Option<crate::coderef::CodeRef>>,
    gm: Seq<Option<crate::coderef::GroupRef>>,
    j: int,
) -> bool {
    match p_ir.entries@[j] {
        Entry::Ret { variant } => (cm[j] matches Some(c) && c
            matches crate::coderef::CodeRef::Entry(e) && e.0 < prog.entries@.len()
            && prog.entries@[e.0 as int] == (crate::entries::Entry::Return { variant })),
        Entry::Jmp { cont, per } => (cm[j] matches Some(c) && c
            matches crate::coderef::CodeRef::Entry(e) && e.0 < prog.entries@.len() && (
        prog.entries@[e.0 as int] matches crate::entries::Entry::Jump { cont: cc, per: pp } && pp
            == per && cm[cont.index as int] == Some(cc))),
        Entry::Call { callee, callcnt, callcont } => (cm[j] matches Some(c) && c
            matches crate::coderef::CodeRef::Entry(e) && e.0 < prog.entries@.len() && (
        prog.entries@[e.0 as int] matches crate::entries::Entry::Call {
            call: cc,
            cont: g,
            num_args: na,
        } && na == callcnt && cm[callee.index as int] == Some(cc) && gm[callcont.index as int]
            == Some(g))),
        Entry::Extern { name } => (cm[j] matches Some(c) && c
            matches crate::coderef::CodeRef::Extern(x) && x.0 < prog.externs@.len()
            && prog.externs@[x.0 as int].spec_name() == name@),
        Entry::Group { .. } => true,
    }
}

/// What the group recorded for the entry at `j` holds: for a group
/// entry, its elements' references once the entry was handled and
/// nothing before; for any other entry, exactly that entry's own
/// reference.
pub open spec fn group_content_ok(
    p_ir: PreCompileProgram,
    prog: crate::program::Program,
    cm: Seq<Option<crate::coderef::CodeRef>>,
    j: int,
    g: crate::coderef::GroupRef,
    full: bool,
) -> bool {
    match p_ir.entries@[j] {
        Entry::Group { elements } => {
            if full {
                crate::program::group_seq(prog, g.0 as int) == resolved_group(cm, elements@)
            } else {
                crate::program::group_seq(prog, g.0 as int) == Seq::<
                    crate::coderef::CodeRef,
                >::empty()
            }
        },
        _ => cm[j] is Some && crate::program::group_seq(prog, g.0 as int) == seq![
            mapped_ref(cm[j]),
        ],
    }
}

/// Whether some entry's recorded reference names the compiled
/// instruction row `e`.
pub open spec fn row_origin(cm: Seq<Option<crate::coderef::CodeRef>>, e: int) -> bool {
    exists|j: int|
        0 <= j < cm.len() && #[trigger] cm[j] == Some(
            crate::coderef::CodeRef::Entry(crate::coderef::EntryRef(e as usize)),
        )
}

/// Whether some entry's recorded reference names the compiled
/// external row `x`.
pub open spec fn ext_origin(cm: Seq<Option<crate::coderef::CodeRef>>, x: int) -> bool {
    exists|j: int|
        0 <= j < cm.len() && #[trigger] cm[j] == Some(
            crate::coderef::CodeRef::Extern(crate::coderef::ExternRef(x as usize)),
        )
}

/// Everything the emission pass keeps true, parameterized by the
/// position (`lv`, `i`) it has reached in the (level, index) order.
pub open spec fn emit_inv(
    p: PreCompileProgram,
    levels: Seq<Option<usize>>,
    prog: crate::program::Program,
    cm: Seq<Option<crate::coderef::CodeRef>>,
    gm: Seq<Option<crate::coderef::GroupRef>>,
    exts: Seq<crate::entries::ExternEntry>,
    orig_ns: Seq<Seq<char>>,
    lv: int,
    i: int,
) -> bool {
    let n = p.entries@.len() as int;
    &&& p.wf()
    &&& levels.len() == n
    &&& cm.len() == n
    &&& gm.len() == n
    &&& prog.exports@.len() == 0
    &&& crate::program::wf_compiled(prog)
    &&& (forall|j: int|
        0 <= j < n ==> (match #[trigger] levels[j] {
            Some(l) => l <= n && (l == 0 <==> p.entries@[j] is Extern) && (l >= 1 ==> ready(
                p,
                j,
                asg_spec(levels, l as int),
            )),
            None => !(p.entries@[j] is Extern),
        }))
    &&& (forall|j: int|
        0 <= j < n ==> ((#[trigger] cm[j]) matches Some(c) ==> crate::program::coderef_ok(prog, c)
            && !(c is Termination) && !(p.entries@[j] is Group) && processed(levels, j, lv, i)))
    &&& (forall|j: int|
        0 <= j < n ==> ((#[trigger] gm[j]) matches Some(g) ==> g.0 < prog.groups@.len()
            && group_content_ok(p, prog, cm, j, g, processed(levels, j, lv, i))))
    &&& (forall|j: int|
        0 <= j < n && #[trigger] processed(levels, j, lv, i) ==> (if p.entries@[j] is Group {
            gm[j] is Some
        } else {
            cm[j] is Some
        }) && entry_good(p, j) && instr_lowered(p, prog, cm, gm, j) && (p.entries@[j] is Extern
            ==> has_name(orig_ns, ename(p, j))))
    &&& (forall|j: int|
        0 <= j < n && !processed(levels, j, lv, i) && (#[trigger] p.entries@[j]) is Extern
            ==> has_name(ext_names(exts), ename(p, j)) == has_name(orig_ns, ename(p, j)))
    &&& (forall|j1: int, j2: int|
        0 <= j1 < n && 0 <= j2 < n && j1 != j2 && #[trigger] cm[j1] is Some && #[trigger] cm[j2]
            is Some ==> cm[j1] != cm[j2])
    &&& (forall|j1: int, j2: int|
        0 <= j1 < n && 0 <= j2 < n && j1 != j2 && #[trigger] gm[j1] is Some && #[trigger] gm[j2]
            is Some ==> gm[j1] != gm[j2])
    &&& (forall|e: int| 0 <= e < prog.entries@.len() ==> #[trigger] row_origin(cm, e))
    &&& (forall|x: int| 0 <= x < prog.externs@.len() ==> #[trigger] ext_origin(cm, x))
}

/// The emission invariant cares about the position only through
/// which entries count as handled: positions with the same handled
/// set carry it unchanged.
proof fn lemma_emit_inv_reposition(
    p: PreCompileProgram,
    levels: Seq<Option<usize>>,
    prog: crate::program::Program,
    cm: Seq<Option<crate::coderef::CodeRef>>,
    gm: Seq<Option<crate::coderef::GroupRef>>,
    exts: Seq<crate::entries::ExternEntry>,
    orig_ns: Seq<Seq<char>>,
    lv: int,
    i: int,
    lv2: int,
    i2: int,
)
    requires
        emit_inv(p, levels, prog, cm, gm, exts, orig_ns, lv, i),
        forall|j: int|
            0 <= j < p.entries@.len() ==> #[trigger] processed(levels, j, lv, i) == processed(
                levels,
                j,
                lv2,
                i2,
            ),
    ensures
        emit_inv(p, levels, prog, cm, gm, exts, orig_ns, lv2, i2),
{
    let n = p.entries@.len() as int;
    assert forall|j: int|
        0 <= j < n implies ((#[trigger] cm[j]) matches Some(c) ==> crate::program::coderef_ok(
        prog,
        c,
    ) && !(c is Termination) && !(p.entries@[j] is Group) && processed(levels, j, lv2, i2)) by {
        assert(processed(levels, j, lv, i) == processed(levels, j, lv2, i2));
    }
    assert forall|j: int|
        0 <= j < n implies ((#[trigger] gm[j]) matches Some(g) ==> g.0 < prog.groups@.len()
            && group_content_ok(p, prog, cm, j, g, processed(levels, j, lv2, i2))) by {
        assert(processed(levels, j, lv, i) == processed(levels, j, lv2, i2));
    }
    assert forall|j: int|
        0 <= j < n && #[trigger] processed(levels, j, lv2, i2) implies (if p.entries@[j]
            is Group {
            gm[j] is Some
        } else {
            cm[j] is Some
        }) && entry_good(p, j) && instr_lowered(p, prog, cm, gm, j) && (p.entries@[j] is Extern
            ==> has_name(orig_ns, ename(p, j))) by {
        assert(processed(levels, j, lv, i) == processed(levels, j, lv2, i2));
    }
    assert forall|j: int|
        0 <= j < n && !processed(levels, j, lv2, i2) && (#[trigger] p.entries@[j]) is Extern
            implies has_name(ext_names(exts), ename(p, j)) == has_name(
        orig_ns,
        ename(p, j),
    ) by {
        assert(processed(levels, j, lv, i) == processed(levels, j, lv2, i2));
    }
}

/// What one export row of a compiled program holds for one exported
/// name: the name itself, and the group recorded for its entry — for
/// a group entry the recorded group, otherwise a group holding
/// exactly the entry's reference.
pub open spec fn export_ok(
    p: PreCompileProgram,
    prog: crate::program::Program,
    cm: Seq<Option<crate::coderef::CodeRef>>,
    gm: Seq<Option<crate::coderef::GroupRef>>,
    k: int,
) -> bool {
    let idx = name_index_rec(p.names@, p.exports@[k]@);
    &&& prog.exports@[k].name@ == p.exports@[k]@
    &&& prog.exports@[k].g.0 < prog.groups@.len()
    &&& (if p.entries@[idx] is Group {
        Some(prog.exports@[k].g) == gm[idx]
    } else {
        cm[idx] is Some && crate::program::group_seq(prog, prog.exports@[k].g.0 as int) == seq![
            mapped_ref(cm[idx]),
        ]
    })
}

/// How a compiled program corresponds to the pre-compile program it
/// was lowered from, through the recorded reference maps: one
/// compiled instruction per Jmp/Call/Ret, one external per
/// placeholder (matched by name), distinct rows for distinct entries,
/// no compiled row from nowhere, each group entry's group holding its
/// elements' references, and one export per exported name with the
/// right group.
pub open spec fn compiled_from(
    p: PreCompileProgram,
    prog: crate::program::Program,
    cm: Seq<Option<crate::coderef::CodeRef>>,
    gm: Seq<Option<crate::coderef::GroupRef>>,
) -> bool {
    let n = p.entries@.len() as int;
    &&& cm.len() == n
    &&& gm.len() == n
    &&& (forall|j: int|
        0 <= j < n ==> #[trigger] instr_lowered(p, prog, cm, gm, j) && (if p.entries@[j]
            is Group {
            gm[j] is Some
        } else {
            cm[j] is Some
        }))
    &&& (forall|j: int|
        0 <= j < n ==> ((#[trigger] gm[j]) matches Some(g) ==> g.0 < prog.groups@.len()
            && group_content_ok(p, prog, cm, j, g, true)))
    &&& (forall|j1: int, j2: int|
        0 <= j1 < n && 0 <= j2 < n && j1 != j2 && #[trigger] cm[j1] is Some && #[trigger] cm[j2]
            is Some ==> cm[j1] != cm[j2])
    &&& (forall|e: int| 0 <= e < prog.entries@.len() ==> #[trigger] row_origin(cm, e))
    &&& (forall|x: int| 0 <= x < prog.externs@.len() ==> #[trigger] ext_origin(cm, x))
    &&& prog.exports@.len() == p.exports@.len()
    &&& (forall|k: int| 0 <= k < p.exports@.len() ==> #[trigger] export_ok(p, prog, cm, gm, k))
}

/// Takes the last external entry carrying the name out of the row,
/// if any; the names other than the consumed one keep their
/// presence.
fn take_extern_by_name(exts: &mut Vec<crate::entries::ExternEntry>, name: &str) -> (r: Option<
    crate::entries::ExternEntry,
>)
    ensures
        (match r {
            None => !has_name(ext_names(old(exts)@), name@) && final(exts)@ == old(exts)@,
            Some(x) => x.spec_name() == name@ && has_name(ext_names(old(exts)@), name@) && (forall|
                nm: Seq<char>,
            |
                nm != name@ ==> #[trigger] has_name(ext_names(final(exts)@), nm) == has_name(
                    ext_names(old(exts)@),
                    nm,
                )),
        }),
{
    let n = exts.len();
    let mut t: usize = 0;
    let mut found: usize = n;
    while t < n
        invariant
            t <= n,
            n == exts@.len(),
            found <= n,
            found == n ==> (forall|k: int|
                0 <= k < t ==> ext_names(exts@)[k] != name@),
            found < n ==> found < t && ext_names(exts@)[found as int] == name@ && (forall|k: int|
                found < k < t ==> ext_names(exts@)[k] != name@),
        decreases n - t,
    {
        let nm = exts[t].name();
        let nm_string = nm.to_owned();
        let key = name.to_owned();
        if nm_string == key {
            found = t;
        }
        t = t + 1;
    }
    if found == n {
        proof {
            assert(!has_name(ext_names(exts@), name@));
        }
        None
    } else {
        let ghost pre = exts@;
        let x = exts.swap_remove(found);
        proof {
            assert(x.spec_name() == name@);
            assert(has_name(ext_names(pre), name@)) by {
                assert(ext_names(pre)[found as int] == name@);
            }
            assert forall|nm: Seq<char>| nm != name@ implies #[trigger] has_name(
                ext_names(exts@),
                nm,
            ) == has_name(ext_names(pre), nm) by {
                if has_name(ext_names(exts@), nm) {
                    let k = choose|k: int|
                        0 <= k < ext_names(exts@).len() && ext_names(exts@)[k] == nm;
                    if k == found {
                        assert(exts@[k] == pre[pre.len() - 1]);
                        assert(ext_names(pre)[pre.len() - 1] == nm);
                    } else {
                        assert(exts@[k] == pre[k]);
                        assert(ext_names(pre)[k] == nm);
                    }
                }
                if has_name(ext_names(pre), nm) {
                    let k = choose|k: int|
                        0 <= k < ext_names(pre).len() && ext_names(pre)[k] == nm;
                    if k == found {
                        assert(false);
                    } else if k == pre.len() - 1 {
                        if found < exts@.len() {
                            assert(exts@[found as int] == pre[pre.len() - 1]);
                            assert(ext_names(exts@)[found as int] == nm);
                        } else {
                            assert(false);
                        }
                    } else {
                        assert(exts@[k] == pre[k]);
                        assert(ext_names(exts@)[k] == nm);
                    }
                }
            }
        }
        Some(x)
    }
}

/// Whether the program defines the name: it maps to an entry that is
/// not a placeholder.
pub open spec fn defines(p: PreCompileProgram, nm: Seq<char>) -> bool {
    let i = name_index_rec(p.names@, nm);
    i >= 0 && !(p.entries@[i] is Extern)
}

/// Whether the entry at `j` refers to the name: as a jump or call
/// target, a call continuation, or a group element.
pub open spec fn entry_mentions(p: PreCompileProgram, j: int, nm: Seq<char>) -> bool {
    match p.entries@[j] {
        Entry::Jmp { cont, .. } => p.names@[cont.index as int]@ == nm,
        Entry::Call { callee, callcont, .. } => p.names@[callee.index as int]@ == nm
            || p.names@[callcont.index as int]@ == nm,
        Entry::Group { elements } => exists|k: int|
            0 <= k < elements@.len() && p.names@[(#[trigger] elements@[k]).index as int]@ == nm,
        _ => false,
    }
}

/// Whether merging from `p` may introduce the name: it names a
/// defined entry of `p`, or a defined entry of `p` refers to it.  A
/// placeholder of `p` that nothing defined refers to is not copied.
pub open spec fn merge_relevant(p: PreCompileProgram, nm: Seq<char>) -> bool {
    exists|j: int|
        0 <= j < p.entries@.len() && !((#[trigger] p.entries@[j]) is Extern) && (p.names@[j]@
            == nm || entry_mentions(p, j, nm))
}

/// Whether the entry of `other` at `j` has a matching definition in
/// `cur` under the same name.
pub open spec fn merged_here(cur: PreCompileProgram, other: PreCompileProgram, j: int) -> bool {
    let i = cur.spec_find_name(other.names@[j]@);
    &&& i >= 0
    &&& i < cur.entries@.len()
    &&& entry_matches(cur.entries@[i], cur.names@, other.entries@[j], other.names@)
}

/// Whether two entries of two programs say the same thing, comparing
/// references by the names they resolve to.
pub open spec fn entry_matches(
    a: Entry,
    na: Seq<String>,
    b: Entry,
    nb: Seq<String>,
) -> bool {
    match (a, b) {
        (Entry::Jmp { cont: c1, per: p1 }, Entry::Jmp { cont: c2, per: p2 }) => {
            &&& p1 == p2
            &&& c1.index < na.len()
            &&& c2.index < nb.len()
            &&& na[c1.index as int]@ == nb[c2.index as int]@
        },
        (
            Entry::Call { callee: a1, callcnt: n1, callcont: a2 },
            Entry::Call { callee: b1, callcnt: n2, callcont: b2 },
        ) => {
            &&& n1 == n2
            &&& a1.index < na.len() && b1.index < nb.len() && na[a1.index as int]@
                == nb[b1.index as int]@
            &&& a2.index < na.len() && b2.index < nb.len() && na[a2.index as int]@
                == nb[b2.index as int]@
        },
        (Entry::Ret { variant: v1 }, Entry::Ret { variant: v2 }) => v1 == v2,
        (Entry::Group { elements: e1 }, Entry::Group { elements: e2 }) => {
            &&& e1@.len() == e2@.len()
            &&& (forall|k: int|
                0 <= k < e1@.len() ==> (#[trigger] e1@[k]).index < na.len() && e2@[k].index
                    < nb.len() && na[e1@[k].index as int]@ == nb[e2@[k].index as int]@)
        },
        (Entry::Extern { name: x1 }, Entry::Extern { name: x2 }) => x1@ == x2@,
        _ => false,
    }
}

impl PreCompileProgram {
    /// Copies the defined entries and exports of another program into
    /// this one, by name: every non-placeholder entry of the other
    /// ends up defined here, saying the same thing over the same
    /// names.
    #[verifier::loop_isolation(false)]
    #[verifier::rlimit(60)]
    pub fn merge(&mut self, other: &PreCompileProgram)
        requires
            old(self).wf(),
            other.wf(),
        ensures
            final(self).wf(),
            forall|k: int|
                0 <= k < old(self).names@.len() ==> final(self).names@[k] == old(self).names@[k],
            forall|j: int|
                0 <= j < other.entries@.len() && !((#[trigger] other.entries@[j]) is Extern) ==> ({
                    let i = final(self).spec_find_name(other.names@[j]@);
                    &&& i >= 0
                    &&& i < final(self).entries@.len()
                    &&& entry_matches(
                        final(self).entries@[i],
                        final(self).names@,
                        other.entries@[j],
                        other.names@,
                    )
                }),
            forall|k: int|
                0 <= k < other.exports@.len() && !(other.entries@[name_index_rec(
                    other.names@,
                    (#[trigger] other.exports@[k])@,
                )] is Extern) ==> (exists|t: int|
                    0 <= t < final(self).exports@.len() && (#[trigger] final(self).exports@[t])@
                        == other.exports@[k]@),
            forall|i: int|
                0 <= i < old(self).entries@.len() && !defines(*other, old(self).names@[i]@)
                    ==> final(self).entries@[i] == old(self).entries@[i],
            forall|t: int|
                old(self).names@.len() <= t < final(self).names@.len() ==> merge_relevant(
                    *other,
                    (#[trigger] final(self).names@[t])@,
                ) && name_index_rec(old(self).names@, final(self).names@[t]@) == -1,
    {
        let n = other.entries.len();
        let mut j: usize = 0;
        while j < n
            invariant
                j <= n,
                self.wf(),
                forall|k: int|
                    0 <= k < old(self).names@.len() ==> self.names@[k] == old(self).names@[k],
                old(self).names@.len() <= self.names@.len(),
                forall|t: int|
                    0 <= t < j && !((#[trigger] other.entries@[t]) is Extern) ==> ({
                        let i = self.spec_find_name(other.names@[t]@);
                        &&& i >= 0
                        &&& i < self.entries@.len()
                        &&& entry_matches(
                            self.entries@[i],
                            self.names@,
                            other.entries@[t],
                            other.names@,
                        )
                    }),
                forall|kk: int|
                    0 <= kk < other.exports@.len() && name_index_rec(
                        other.names@,
                        (#[trigger] other.exports@[kk])@,
                    ) < j && !(other.entries@[name_index_rec(
                        other.names@,
                        other.exports@[kk]@,
                    )] is Extern) ==> (exists|t: int|
                        0 <= t < self.exports@.len() && (#[trigger] self.exports@[t])@
                            == other.exports@[kk]@),
                forall|i: int|
                    0 <= i < old(self).entries@.len() && !defines(*other, old(self).names@[i]@)
                        ==> self.entries@[i] == old(self).entries@[i],
                forall|t: int|
                    old(self).names@.len() <= t < self.names@.len() ==> merge_relevant(
                        *other,
                        (#[trigger] self.names@[t])@,
                    ) && name_index_rec(old(self).names@, self.names@[t]@) == -1,
            decreases n - j,
        {
            let ghost pre = *self;
            let label = other.names[j].as_str();
            let is_export = contains_name(&other.exports, label);
            let mut defined = true;
            match &other.entries[j] {
                Entry::Extern { .. } => {
                    defined = false;
                },
                Entry::Jmp { cont, per } => {
                    let rdef = self.define_jmp(label, other.names[cont.index].as_str(), *per);
                    proof {
                        assert(refs_ok(other.entries@[j as int], other.entries@.len() as nat));
                        lemma_name_index_rec(self.names@, other.names@[j as int]@);
                        lemma_name_index_rec(self.names@, other.names@[cont.index as int]@);
                        assert(merged_here(*self, *other, j as int));
                        assert(defines(*other, other.names@[j as int]@)) by {
                            lemma_name_index_rec(other.names@, other.names@[j as int]@);
                        }
                        assert forall|i: int|
                            0 <= i < old(self).entries@.len() && !defines(
                                *other,
                                old(self).names@[i]@,
                            ) implies self.entries@[i] == old(self).entries@[i] by {
                            assert(pre.entries@[i] == old(self).entries@[i]);
                            assert(pre.names@[i] == old(self).names@[i]);
                            if i == rdef.index {
                                lemma_name_index_rec(self.names@, other.names@[j as int]@);
                                assert(self.names@[i]@ == other.names@[j as int]@);
                                assert(self.names@[i] == pre.names@[i]);
                            }
                        }
                        assert forall|t: int|
                            old(self).names@.len() <= t < self.names@.len()
                                implies merge_relevant(*other, (#[trigger] self.names@[t])@)
                            && name_index_rec(old(self).names@, self.names@[t]@) == -1 by {
                            if t < pre.names@.len() {
                                assert(self.names@[t] == pre.names@[t]);
                            } else {
                                assert(name_index_rec(pre.names@, self.names@[t]@) == -1);
                                if name_index_rec(old(self).names@, self.names@[t]@) >= 0 {
                                    lemma_find_stable(
                                        old(self).names@,
                                        pre.names@,
                                        self.names@[t]@,
                                    );
                                }
                                assert(self.names@[t]@ == other.names@[j as int]@
                                    || self.names@[t]@ == other.names@[cont.index as int]@);
                                assert(merge_relevant(*other, self.names@[t]@)) by {
                                    assert(0 <= j < other.entries@.len() && !(
                                    other.entries@[j as int] is Extern) && (
                                    other.names@[j as int]@ == self.names@[t]@ || entry_mentions(
                                        *other,
                                        j as int,
                                        self.names@[t]@,
                                    )));
                                }
                            }
                        }
                    }
                },
                Entry::Call { callee, callcnt, callcont } => {
                    let rdef = self.define_call(
                        label,
                        other.names[callee.index].as_str(),
                        *callcnt,
                        other.names[callcont.index].as_str(),
                    );
                    proof {
                        assert(refs_ok(other.entries@[j as int], other.entries@.len() as nat));
                        lemma_name_index_rec(self.names@, other.names@[j as int]@);
                        lemma_name_index_rec(self.names@, other.names@[callee.index as int]@);
                        lemma_name_index_rec(self.names@, other.names@[callcont.index as int]@);
                        assert(merged_here(*self, *other, j as int));
                        assert(defines(*other, other.names@[j as int]@)) by {
                            lemma_name_index_rec(other.names@, other.names@[j as int]@);
                        }
                        assert forall|i: int|
                            0 <= i < old(self).entries@.len() && !defines(
                                *other,
                                old(self).names@[i]@,
                            ) implies self.entries@[i] == old(self).entries@[i] by {
                            assert(pre.entries@[i] == old(self).entries@[i]);
                            assert(pre.names@[i] == old(self).names@[i]);
                            if i == rdef.index {
                                lemma_name_index_rec(self.names@, other.names@[j as int]@);
                                assert(self.names@[i]@ == other.names@[j as int]@);
                                assert(self.names@[i] == pre.names@[i]);
                            }
                        }
                        assert forall|t: int|
                            old(self).names@.len() <= t < self.names@.len()
                                implies merge_relevant(*other, (#[trigger] self.names@[t])@)
                            && name_index_rec(old(self).names@, self.names@[t]@) == -1 by {
                            if t < pre.names@.len() {
                                assert(self.names@[t] == pre.names@[t]);
                            } else {
                                assert(name_index_rec(pre.names@, self.names@[t]@) == -1);
                                if name_index_rec(old(self).names@, self.names@[t]@) >= 0 {
                                    lemma_find_stable(
                                        old(self).names@,
                                        pre.names@,
                                        self.names@[t]@,
                                    );
                                }
                                assert(self.names@[t]@ == other.names@[j as int]@
                                    || self.names@[t]@ == other.names@[callee.index as int]@
                                    || self.names@[t]@ == other.names@[callcont.index as int]@);
                                assert(merge_relevant(*other, self.names@[t]@)) by {
                                    assert(0 <= j < other.entries@.len() && !(
                                    other.entries@[j as int] is Extern) && (
                                    other.names@[j as int]@ == self.names@[t]@ || entry_mentions(
                                        *other,
                                        j as int,
                                        self.names@[t]@,
                                    )));
                                }
                            }
                        }
                    }
                },
                Entry::Ret { variant } => {
                    let rdef = self.define_ret(label, *variant);
                    proof {
                        lemma_name_index_rec(self.names@, other.names@[j as int]@);
                        assert(merged_here(*self, *other, j as int));
                        assert(defines(*other, other.names@[j as int]@)) by {
                            lemma_name_index_rec(other.names@, other.names@[j as int]@);
                        }
                        assert forall|i: int|
                            0 <= i < old(self).entries@.len() && !defines(
                                *other,
                                old(self).names@[i]@,
                            ) implies self.entries@[i] == old(self).entries@[i] by {
                            assert(pre.entries@[i] == old(self).entries@[i]);
                            assert(pre.names@[i] == old(self).names@[i]);
                            if i == rdef.index {
                                lemma_name_index_rec(self.names@, other.names@[j as int]@);
                                assert(self.names@[i]@ == other.names@[j as int]@);
                                assert(self.names@[i] == pre.names@[i]);
                            }
                        }
                        assert forall|t: int|
                            old(self).names@.len() <= t < self.names@.len()
                                implies merge_relevant(*other, (#[trigger] self.names@[t])@)
                            && name_index_rec(old(self).names@, self.names@[t]@) == -1 by {
                            if t < pre.names@.len() {
                                assert(self.names@[t] == pre.names@[t]);
                            } else {
                                assert(name_index_rec(pre.names@, self.names@[t]@) == -1);
                                if name_index_rec(old(self).names@, self.names@[t]@) >= 0 {
                                    lemma_find_stable(
                                        old(self).names@,
                                        pre.names@,
                                        self.names@[t]@,
                                    );
                                }
                                assert(self.names@[t]@ == other.names@[j as int]@);
                                assert(merge_relevant(*other, self.names@[t]@)) by {
                                    assert(0 <= j < other.entries@.len() && !(
                                    other.entries@[j as int] is Extern)
                                        && other.names@[j as int]@ == self.names@[t]@);
                                }
                            }
                        }
                    }
                },
                Entry::Group { elements } => {
                    let mut elems: Vec<&str> = Vec::new();
                    let m = elements.len();
                    let mut k: usize = 0;
                    while k < m
                        invariant
                            k <= m,
                            m == elements@.len(),
                            other.entries@[j as int] matches Entry::Group { elements: es } && es
                                == *elements,
                            j < n,
                            elems@.len() == k,
                            forall|t: int|
                                0 <= t < k ==> (#[trigger] elems@[t])@ == other.names@[(
                                elements@[t]).index as int]@,
                        decreases m - k,
                    {
                        proof {
                            assert(refs_ok(
                                other.entries@[j as int],
                                other.entries@.len() as nat,
                            ));
                            assert(elements@[k as int].index < other.entries@.len());
                        }
                        elems.push(other.names[elements[k].index].as_str());
                        k = k + 1;
                    }
                    let rdef = self.define_group(label, elems.as_slice());
                    proof {
                        assert(refs_ok(other.entries@[j as int], other.entries@.len() as nat));
                        lemma_name_index_rec(self.names@, other.names@[j as int]@);
                        let i = self.spec_find_name(other.names@[j as int]@);
                        let es = self.entries@[i]->Group_elements;
                        assert(es@.len() == elems@.len());
                        assert forall|k: int|
                            0 <= k < elems@.len() implies (#[trigger] es@[k]).index < self.names@.len()
                            && self.names@[es@[k].index as int]@
                            == other.names@[(elements@[k]).index as int]@ by {
                            assert(es@[k].index == self.spec_find_name(elems@[k]@));
                            lemma_name_index_rec(self.names@, elems@[k]@);
                        }
                        assert(merged_here(*self, *other, j as int));
                        assert(defines(*other, other.names@[j as int]@)) by {
                            lemma_name_index_rec(other.names@, other.names@[j as int]@);
                        }
                        assert forall|i2: int|
                            0 <= i2 < old(self).entries@.len() && !defines(
                                *other,
                                old(self).names@[i2]@,
                            ) implies self.entries@[i2] == old(self).entries@[i2] by {
                            assert(pre.entries@[i2] == old(self).entries@[i2]);
                            assert(pre.names@[i2] == old(self).names@[i2]);
                            if i2 == rdef.index {
                                lemma_name_index_rec(self.names@, other.names@[j as int]@);
                                assert(self.names@[i2]@ == other.names@[j as int]@);
                                assert(self.names@[i2] == pre.names@[i2]);
                            }
                        }
                        assert forall|t: int|
                            old(self).names@.len() <= t < self.names@.len()
                                implies merge_relevant(*other, (#[trigger] self.names@[t])@)
                            && name_index_rec(old(self).names@, self.names@[t]@) == -1 by {
                            if t < pre.names@.len() {
                                assert(self.names@[t] == pre.names@[t]);
                            } else {
                                assert(name_index_rec(pre.names@, self.names@[t]@) == -1);
                                if name_index_rec(old(self).names@, self.names@[t]@) >= 0 {
                                    lemma_find_stable(
                                        old(self).names@,
                                        pre.names@,
                                        self.names@[t]@,
                                    );
                                }
                                assert(self.names@[t]@ == other.names@[j as int]@ || (exists|
                                    k2: int,
                                |
                                    0 <= k2 < elems@.len() && self.names@[t]@ == (
                                    #[trigger] elems@[k2])@));
                                assert(merge_relevant(*other, self.names@[t]@)) by {
                                    if self.names@[t]@ != other.names@[j as int]@ {
                                        let k2 = choose|k2: int|
                                            0 <= k2 < elems@.len() && self.names@[t]@ == (
                                            #[trigger] elems@[k2])@;
                                        assert(self.names@[t]@ == other.names@[(
                                        elements@[k2]).index as int]@);
                                        assert(entry_mentions(*other, j as int, self.names@[t]@));
                                    }
                                    assert(0 <= j < other.entries@.len() && !(
                                    other.entries@[j as int] is Extern) && (
                                    other.names@[j as int]@ == self.names@[t]@ || entry_mentions(
                                        *other,
                                        j as int,
                                        self.names@[t]@,
                                    )));
                                }
                            }
                        }
                    }
                },
            }
            if defined && is_export {
                let _ = self.set_export(label);
            }
            proof {
                assert forall|kk: int|
                    0 <= kk < other.exports@.len() && name_index_rec(
                        other.names@,
                        (#[trigger] other.exports@[kk])@,
                    ) < j + 1 && !(other.entries@[name_index_rec(
                        other.names@,
                        other.exports@[kk]@,
                    )] is Extern) implies (exists|t: int|
                    0 <= t < self.exports@.len() && (#[trigger] self.exports@[t])@
                        == other.exports@[kk]@) by {
                    let idx = name_index_rec(other.names@, other.exports@[kk]@);
                    lemma_name_index_rec(other.names@, other.exports@[kk]@);
                    if idx < j {
                        let t0 = choose|t: int|
                            0 <= t < pre.exports@.len() && (#[trigger] pre.exports@[t])@
                                == other.exports@[kk]@;
                        assert(self.exports@[t0]@ == other.exports@[kk]@);
                    } else {
                        assert(other.names@[j as int]@ == other.exports@[kk]@);
                        assert(is_export);
                    }
                }
                assert forall|t: int|
                    0 <= t < j + 1 && !((#[trigger] other.entries@[t]) is Extern) implies ({
                    let i = self.spec_find_name(other.names@[t]@);
                    &&& i >= 0
                    &&& i < self.entries@.len()
                    &&& entry_matches(
                        self.entries@[i],
                        self.names@,
                        other.entries@[t],
                        other.names@,
                    )
                }) by {
                    assert(t == j ==> merged_here(*self, *other, t));
                    lemma_merge_step(pre, *self, *other, t, j as int);
                }
            }
            j = j + 1;
        }
        proof {
            assert forall|k: int|
                0 <= k < other.exports@.len() && !(other.entries@[name_index_rec(
                    other.names@,
                    (#[trigger] other.exports@[k])@,
                )] is Extern) implies (exists|t: int|
                0 <= t < self.exports@.len() && (#[trigger] self.exports@[t])@
                    == other.exports@[k]@) by {
                lemma_name_index_rec(other.names@, other.exports@[k]@);
            }
        }
    }
}

/// One merge step keeps every earlier correspondence: names only
/// extend, and the one rewritten entry carries a different name.
proof fn lemma_merge_step(
    pre: PreCompileProgram,
    cur: PreCompileProgram,
    other: PreCompileProgram,
    t: int,
    j: int,
)
    requires
        pre.wf(),
        cur.wf(),
        other.wf(),
        0 <= t <= j < other.entries@.len(),
        !(other.entries@[t] is Extern),
        pre.names@.len() <= cur.names@.len(),
        forall|k: int| 0 <= k < pre.names@.len() ==> cur.names@[k] == pre.names@[k],
        t < j ==> ({
            let i = pre.spec_find_name(other.names@[t]@);
            &&& i >= 0
            &&& i < pre.entries@.len()
            &&& entry_matches(pre.entries@[i], pre.names@, other.entries@[t], other.names@)
        }),
        t == j && !(other.entries@[j] is Extern) ==> merged_here(cur, other, j),
        t < j ==> (forall|i: int|
            0 <= i < pre.entries@.len() && i != cur.spec_find_name(other.names@[j]@)
                ==> cur.entries@[i] == pre.entries@[i]),
    ensures
        ({
            let i = cur.spec_find_name(other.names@[t]@);
            &&& i >= 0
            &&& i < cur.entries@.len()
            &&& entry_matches(cur.entries@[i], cur.names@, other.entries@[t], other.names@)
        }),
{
    if t == j {
    } else {
        let i = pre.spec_find_name(other.names@[t]@);
        lemma_find_stable(pre.names@, cur.names@, other.names@[t]@);
        lemma_name_index_rec(pre.names@, other.names@[t]@);
        let ij = cur.spec_find_name(other.names@[j]@);
        lemma_name_index_rec(cur.names@, other.names@[j]@);
        assert(other.names@[t]@ != other.names@[j]@);
        assert(i != ij) by {
            if i == ij && ij >= 0 {
                assert(cur.names@[i]@ == other.names@[t]@);
                assert(cur.names@[ij]@ == other.names@[j]@);
            }
        }
        assert(cur.entries@[i] == pre.entries@[i]);
        assert(entry_matches(cur.entries@[i], cur.names@, other.entries@[t], other.names@)) by {
            lemma_entry_matches_extend(
                pre.entries@[i],
                pre.names@,
                cur.names@,
                other.entries@[t],
                other.names@,
            );
        }
    }
}

/// A correspondence keeps holding when the first program's names are
/// only appended to.
proof fn lemma_entry_matches_extend(
    a: Entry,
    na: Seq<String>,
    na2: Seq<String>,
    b: Entry,
    nb: Seq<String>,
)
    requires
        entry_matches(a, na, b, nb),
        na.len() <= na2.len(),
        forall|k: int| 0 <= k < na.len() ==> na2[k] == na[k],
    ensures
        entry_matches(a, na2, b, nb),
{
}

/// Whether the row holds a string with the given text.
fn contains_name(v: &Vec<String>, name: &str) -> (r: bool)
    ensures
        r == (exists|k: int| 0 <= k < v@.len() && (#[trigger] v@[k])@ == name@),
{
    let key = name.to_owned();
    let n = v.len();
    let mut i: usize = 0;
    while i < n
        invariant
            i <= n,
            n == v@.len(),
            key@ == name@,
            forall|k: int| 0 <= k < i ==> (#[trigger] v@[k])@ != name@,
        decreases n - i,
    {
        if v[i] == key {
            return true;
        }
        i = i + 1;
    }
    false
}

/// A row of nothing-yet, one slot per entry.
fn none_vec<T>(n: usize) -> (r: Vec<Option<T>>)
    ensures
        r@.len() == n,
        forall|k: int| 0 <= k < n ==> (#[trigger] r@[k]) is None,
{
    let mut v: Vec<Option<T>> = Vec::new();
    let mut i: usize = 0;
    while i < n
        invariant
            i <= n,
            v@.len() == i,
            forall|k: int| 0 <= k < i ==> (#[trigger] v@[k]) is None,
        decreases n - i,
    {
        v.push(None);
        i = i + 1;
    }
    v
}

impl PreCompileProgram {
    /// When the entry at `ii` refers, where an instruction is needed,
    /// to a target that is handled but has no recorded reference, the
    /// target is a group: the reference cannot be lowered, and no
    /// placeholder was missing up to here.
    proof fn lemma_emit_bad_target(
        &self,
        levels: Seq<Option<usize>>,
        prog0: crate::program::Program,
        cm0: Seq<Option<crate::coderef::CodeRef>>,
        gm0: Seq<Option<crate::coderef::GroupRef>>,
        exts0: Seq<crate::entries::ExternEntry>,
        orig_ns: Seq<Seq<char>>,
        lv: int,
        ii: int,
        target: int,
    )
        requires
            emit_inv(*self, levels, prog0, cm0, gm0, exts0, orig_ns, lv, ii),
            0 <= ii < self.entries@.len(),
            0 <= target < self.entries@.len(),
            (levels[ii] matches Some(l) && l == lv),
            cm0[target] is None,
            (match self.entries@[ii] {
                Entry::Jmp { cont, .. } => cont.index == target,
                Entry::Call { callee, .. } => callee.index == target,
                Entry::Group { elements } => exists|k: int|
                    0 <= k < elements@.len() && (#[trigger] elements@[k]).index == target,
                _ => false,
            }),
        ensures
            bad_target(*self),
            first_missing_rec(*self, orig_ns, 0) == -1,
            self.entries@[target] is Group,
    {
        let n = self.entries@.len() as int;
        assert(levels[ii] matches Some(l) && l >= 1 && ready(
            *self,
            ii,
            asg_spec(levels, l as int),
        ));
        assert(processed(levels, target, lv, ii));
        assert(self.entries@[target] is Group) by {
            if !(self.entries@[target] is Group) {
                assert(cm0[target] is Some);
            }
        }
        assert(!entry_good(*self, ii));
        assert(bad_target(*self));
        assert(first_missing_rec(*self, orig_ns, 0) == -1) by {
            lemma_first_missing_rec(*self, orig_ns, 0);
            let fm = first_missing_rec(*self, orig_ns, 0);
            if fm >= 0 {
                assert(self.entries@[fm] is Extern);
                assert(levels[fm] matches Some(l2) && l2 == 0);
                assert(processed(levels, fm, lv, ii));
                assert(has_name(orig_ns, ename(*self, fm)));
            }
        }
    }

    /// One emission step keeps the whole state consistent: given the
    /// step's own facts — what it recorded for its entry, how the
    /// tables and maps changed — every fact about the entries handled
    /// before carries over.
    #[verifier::rlimit(100)]
    #[verifier::spinoff_prover]
    proof fn lemma_emit_stable(
        &self,
        levels: Seq<Option<usize>>,
        prog0: crate::program::Program,
        prog1: crate::program::Program,
        cm0: Seq<Option<crate::coderef::CodeRef>>,
        cm1: Seq<Option<crate::coderef::CodeRef>>,
        gm0: Seq<Option<crate::coderef::GroupRef>>,
        gm1: Seq<Option<crate::coderef::GroupRef>>,
        exts0: Seq<crate::entries::ExternEntry>,
        exts1: Seq<crate::entries::ExternEntry>,
        orig_ns: Seq<Seq<char>>,
        lv: int,
        ii: int,
        exempt: int,
    )
        requires
            emit_inv(*self, levels, prog0, cm0, gm0, exts0, orig_ns, lv, ii),
            0 <= ii < self.entries@.len(),
            (levels[ii] matches Some(l) && l == lv),
            // how the reference maps changed: at most the slot of the
            // entry itself, plus empty group slots
            cm1.len() == cm0.len(),
            forall|j: int| 0 <= j < cm0.len() && j != ii ==> cm1[j] == cm0[j],
            gm1.len() == gm0.len(),
            forall|j: int|
                0 <= j < gm0.len() && (#[trigger] gm0[j]) is Some ==> gm1[j] == gm0[j],
            // how the program grew: rows only appended, groups only
            // appended or filled at the exempt slot
            prog1.exports@.len() == 0,
            crate::program::wf_compiled(prog1),
            prog0.entries@.len() <= prog1.entries@.len(),
            forall|e: int|
                0 <= e < prog0.entries@.len() ==> prog1.entries@[e] == prog0.entries@[e],
            prog0.externs@.len() <= prog1.externs@.len(),
            forall|x: int|
                0 <= x < prog0.externs@.len() ==> prog1.externs@[x] == prog0.externs@[x],
            prog0.groups@.len() <= prog1.groups@.len(),
            forall|g2: int|
                0 <= g2 < prog0.groups@.len() && g2 != exempt ==> prog1.groups@[g2]
                    == prog0.groups@[g2],
            forall|j: int|
                0 <= j < gm0.len() && j != ii ==> ((#[trigger] gm0[j]) matches Some(gv) ==> gv.0
                    != exempt),
            // the step's own facts
            (if self.entries@[ii] is Group {
                gm1[ii] is Some
            } else {
                cm1[ii] is Some
            }),
            entry_good(*self, ii),
            instr_lowered(*self, prog1, cm1, gm1, ii),
            (self.entries@[ii] is Extern ==> has_name(orig_ns, ename(*self, ii))),
            (cm1[ii] matches Some(c) ==> crate::program::coderef_ok(prog1, c) && !(c
                is Termination) && !(self.entries@[ii] is Group) && (forall|j: int|
                0 <= j < cm0.len() && j != ii && (#[trigger] cm0[j]) is Some ==> cm0[j] != Some(
                    c,
                ))),
            forall|j: int|
                0 <= j < gm0.len() && gm0[j] is None ==> ((#[trigger] gm1[j]) matches Some(g)
                    ==> g.0 < prog1.groups@.len() && group_content_ok(
                    *self,
                    prog1,
                    cm1,
                    j,
                    g,
                    processed(levels, j, lv, ii + 1),
                )),
            (gm1[ii] matches Some(g) ==> g.0 < prog1.groups@.len() && group_content_ok(
                *self,
                prog1,
                cm1,
                ii,
                g,
                processed(levels, ii, lv, ii + 1),
            )),
            forall|j1: int, j2: int|
                0 <= j1 < gm1.len() && 0 <= j2 < gm1.len() && j1 != j2 && #[trigger] gm1[j1]
                    is Some && #[trigger] gm1[j2] is Some ==> gm1[j1] != gm1[j2],
            // the step's effect on the provided externals
            forall|j: int|
                0 <= j < self.entries@.len() && !processed(levels, j, lv, ii + 1) && (
                #[trigger] self.entries@[j]) is Extern ==> has_name(
                    ext_names(exts1),
                    ename(*self, j),
                ) == has_name(orig_ns, ename(*self, j)),
            // the rows the step appended all came from its entry
            forall|e: int|
                prog0.entries@.len() <= e < prog1.entries@.len() ==> #[trigger] row_origin(
                    cm1,
                    e,
                ),
            forall|x: int|
                prog0.externs@.len() <= x < prog1.externs@.len() ==> #[trigger] ext_origin(
                    cm1,
                    x,
                ),
        ensures
            emit_inv(*self, levels, prog1, cm1, gm1, exts1, orig_ns, lv, ii + 1),
    {
        let n = self.entries@.len() as int;
        assert(cm0[ii] is None) by {
            if cm0[ii] is Some {
                assert(processed(levels, ii, lv, ii));
            }
        }
        assert(forall|j: int|
            0 <= j < n && #[trigger] processed(levels, j, lv, ii) ==> j != ii && processed(
                levels,
                j,
                lv,
                ii + 1,
            ));
        assert(forall|j: int|
            0 <= j < n && j != ii && #[trigger] processed(levels, j, lv, ii + 1) ==> processed(
                levels,
                j,
                lv,
                ii,
            ));
        // handled entries' references keep resolving: any recorded
        // reference of a handled entry names a handled, distinct slot
        assert forall|j: int|
            0 <= j < n implies ((#[trigger] cm1[j]) matches Some(c)
            ==> crate::program::coderef_ok(prog1, c) && !(c is Termination) && !(
        self.entries@[j] is Group) && processed(levels, j, lv, ii + 1)) by {
            if j != ii && cm1[j] is Some {
                assert(cm1[j] == cm0[j]);
                assert(crate::program::coderef_ok(prog0, mapped_ref(cm0[j])));
            }
        }
        // the groups recorded before keep their contents
        assert forall|j: int|
            0 <= j < n implies ((#[trigger] gm1[j]) matches Some(g) ==> g.0
            < prog1.groups@.len() && group_content_ok(
            *self,
            prog1,
            cm1,
            j,
            g,
            processed(levels, j, lv, ii + 1),
        )) by {
            match gm1[j] {
                None => {},
                Some(g) => if j == ii || gm0[j] is None {
                } else {
                    assert(gm0[j] == Some(g));
                    assert(g.0 != exempt);
                    assert(prog1.groups@[g.0 as int] == prog0.groups@[g.0 as int]);
                    assert(crate::program::group_seq(prog1, g.0 as int)
                        == crate::program::group_seq(prog0, g.0 as int));
                    assert(processed(levels, j, lv, ii + 1) == processed(levels, j, lv, ii));
                    match self.entries@[j] {
                        Entry::Group { elements } => {
                            if processed(levels, j, lv, ii) {
                                assert(levels[j] matches Some(lj) && lj >= 1 && ready(
                                    *self,
                                    j,
                                    asg_spec(levels, lj as int),
                                ));
                                assert(refs_ok(self.entries@[j], self.entries@.len() as nat));
                                assert forall|t: int|
                                    0 <= t < elements@.len() implies mapped_ref(
                                    cm1[(#[trigger] elements@[t]).index as int],
                                ) == mapped_ref(cm0[elements@[t].index as int]) by {
                                    assert(processed(
                                        levels,
                                        elements@[t].index as int,
                                        lv,
                                        ii,
                                    ));
                                }
                                assert(resolved_group(cm1, elements@) =~= resolved_group(
                                    cm0,
                                    elements@,
                                ));
                            }
                        },
                        _ => {
                            assert(cm0[j] is Some);
                            assert(processed(levels, j, lv, ii));
                            assert(cm1[j] == cm0[j]);
                        },
                    }
                },
            }
        }
        // everything known of the handled entries carries over, and
        // the entry handled by this step joins them
        assert forall|j: int|
            0 <= j < n && #[trigger] processed(levels, j, lv, ii + 1) implies (if self.entries@[j]
            is Group {
            gm1[j] is Some
        } else {
            cm1[j] is Some
        }) && entry_good(*self, j) && instr_lowered(*self, prog1, cm1, gm1, j) && (
        self.entries@[j] is Extern ==> has_name(orig_ns, ename(*self, j))) by {
            if j != ii {
                assert(processed(levels, j, lv, ii));
                assert(instr_lowered(*self, prog0, cm0, gm0, j));
                match self.entries@[j] {
                    Entry::Jmp { cont, .. } => {
                        assert(cm0[cont.index as int] is Some);
                        assert(processed(levels, cont.index as int, lv, ii));
                        assert(cm1[cont.index as int] == cm0[cont.index as int]);
                        assert(cm1[j] == cm0[j]);
                    },
                    Entry::Call { callee, callcont, .. } => {
                        assert(cm0[callee.index as int] is Some);
                        assert(processed(levels, callee.index as int, lv, ii));
                        assert(cm1[callee.index as int] == cm0[callee.index as int]);
                        assert(gm0[callcont.index as int] is Some);
                        assert(gm1[callcont.index as int] == gm0[callcont.index as int]);
                        assert(cm1[j] == cm0[j]);
                    },
                    _ => {
                        assert(cm1[j] == cm0[j]);
                    },
                }
            }
        }
        // distinct entries keep distinct references
        assert forall|j1: int, j2: int|
            0 <= j1 < n && 0 <= j2 < n && j1 != j2 && #[trigger] cm1[j1] is Some
                && #[trigger] cm1[j2] is Some implies cm1[j1] != cm1[j2] by {
            if j1 != ii && j2 != ii {
                assert(cm1[j1] == cm0[j1] && cm1[j2] == cm0[j2]);
            } else if j1 == ii {
                assert(cm0[j2] is Some && cm1[j2] == cm0[j2]);
            } else {
                assert(cm0[j1] is Some && cm1[j1] == cm0[j1]);
            }
        }
        // every compiled row still has an origin
        assert forall|e: int|
            0 <= e < prog1.entries@.len() implies #[trigger] row_origin(cm1, e) by {
            if e < prog0.entries@.len() {
                assert(row_origin(cm0, e));
                let j0 = choose|j: int|
                    0 <= j < cm0.len() && #[trigger] cm0[j] == Some(
                        crate::coderef::CodeRef::Entry(crate::coderef::EntryRef(e as usize)),
                    );
                assert(j0 != ii);
                assert(cm1[j0] == cm0[j0]);
            }
        }
        assert forall|x: int|
            0 <= x < prog1.externs@.len() implies #[trigger] ext_origin(cm1, x) by {
            if x < prog0.externs@.len() {
                assert(ext_origin(cm0, x));
                let j0 = choose|j: int|
                    0 <= j < cm0.len() && #[trigger] cm0[j] == Some(
                        crate::coderef::CodeRef::Extern(crate::coderef::ExternRef(x as usize)),
                    );
                assert(j0 != ii);
                assert(cm1[j0] == cm0[j0]);
            }
        }
    }

    /// For a step that leaves the provided externals alone, the
    /// name-presence balance carries to the next position.
    proof fn lemma_exts_carry(
        &self,
        levels: Seq<Option<usize>>,
        prog0: crate::program::Program,
        cm0: Seq<Option<crate::coderef::CodeRef>>,
        gm0: Seq<Option<crate::coderef::GroupRef>>,
        exts0: Seq<crate::entries::ExternEntry>,
        orig_ns: Seq<Seq<char>>,
        lv: int,
        ii: int,
    )
        requires
            emit_inv(*self, levels, prog0, cm0, gm0, exts0, orig_ns, lv, ii),
            0 <= ii < self.entries@.len(),
        ensures
            forall|j: int|
                0 <= j < self.entries@.len() && !processed(levels, j, lv, ii + 1) && (
                #[trigger] self.entries@[j]) is Extern ==> has_name(
                    ext_names(exts0),
                    ename(*self, j),
                ) == has_name(orig_ns, ename(*self, j)),
    {
        assert forall|j: int|
            0 <= j < self.entries@.len() && !processed(levels, j, lv, ii + 1) && (
            #[trigger] self.entries@[j]) is Extern implies has_name(
            ext_names(exts0),
            ename(*self, j),
        ) == has_name(orig_ns, ename(*self, j)) by {
            assert(!processed(levels, j, lv, ii));
        }
    }

    /// One emission step, for an entry of this kind.
    #[verifier::loop_isolation(false)]
    #[verifier::rlimit(100)]
    #[verifier::spinoff_prover]
    fn emit_extern_at(
        &self,
        levels: &Vec<Option<usize>>,
        prog: &mut crate::program::Program,
        cmap: &mut Vec<Option<crate::coderef::CodeRef>>,
        gmap: &mut Vec<Option<crate::coderef::GroupRef>>,
        exts: &mut Vec<crate::entries::ExternEntry>,
        i: usize,
        lv: u128,
        Ghost(orig_ns): Ghost<Seq<Seq<char>>>,
    ) -> (r: Result<(), crate::error::CompileError>)
        requires
            i < self.entries@.len(),
            (levels@[i as int] matches Some(l) && l as u128 == lv),
            emit_inv(
                *self,
                levels@,
                *old(prog),
                old(cmap)@,
                old(gmap)@,
                old(exts)@,
                orig_ns,
                lv as int,
                i as int,
            ),
            self.entries@[i as int] is Extern,
        ensures
            (match r {
                Ok(_) => emit_inv(
                    *self,
                    levels@,
                    *final(prog),
                    final(cmap)@,
                    final(gmap)@,
                    final(exts)@,
                    orig_ns,
                    lv as int,
                    i as int + 1,
                ),
                Err(crate::error::CompileError::ExternNotFound(nm)) => first_missing_rec(
                    *self,
                    orig_ns,
                    0,
                ) == i as int && nm@ == ename(*self, i as int),
                Err(crate::error::CompileError::NameNotFound(nm)) => bad_target(*self)
                    && first_missing_rec(*self, orig_ns, 0) == -1 && (exists|j: int|
                    0 <= j < self.entries@.len() && (#[trigger] self.entries@[j]) is Group
                        && self.names@[j]@ == nm@),
                Err(crate::error::CompileError::CircularReference(_)) => false,
            }),
    {
        let n = self.entries.len();
        let ghost prog0 = *prog;
        let ghost cm0 = cmap@;
        let ghost gm0 = gmap@;
        let ghost exts0 = exts@;
        let ghost ii = i as int;
        proof {
            assert(cm0[ii] is None) by {
                if cm0[ii] is Some {
                    assert(processed(levels@, ii, lv as int, ii));
                }
            }
            assert(gm0[ii] is Some ==> self.entries@[ii] is Group) by {
                if gm0[ii] is Some && !(self.entries@[ii] is Group) {
                    assert(cm0[ii] is Some);
                }
            }
            assert(forall|j: int|
                0 <= j < n && #[trigger] processed(levels@, j, lv as int, ii) ==> j != ii);
            assert(prog0.entries@.len() <= usize::MAX) by {
                assert(prog0.entries.len() == prog0.entries@.len());
            }
            assert(prog0.externs@.len() <= usize::MAX) by {
                assert(prog0.externs.len() == prog0.externs@.len());
            }
            assert(prog0.groups@.len() <= usize::MAX) by {
                assert(prog0.groups.len() == prog0.groups@.len());
            }
        }
        match &self.entries[i] {
            Entry::Extern { name } => {
                match take_extern_by_name(exts, name.as_str()) {
                    Some(x) => {
                        let cr = prog.add_extern(x);
                        set_vec_at(cmap, i, Some(cr));
                        proof {
                            crate::program::lemma_wfc_grow(prog0, *prog);
                            assert(instr_lowered(*self, *prog, cmap@, gmap@, ii));
                            assert(has_name(orig_ns, ename(*self, ii)));
                            assert forall|j: int|
                                0 <= j < n && !processed(levels@, j, lv as int, ii + 1) && (
                                #[trigger] self.entries@[j]) is Extern implies has_name(
                                ext_names(exts@),
                                ename(*self, j),
                            ) == has_name(orig_ns, ename(*self, j)) by {
                                assert(!processed(levels@, j, lv as int, ii));
                                assert(j != ii);
                                assert(ename(*self, j) == self.names@[j]@);
                                assert(ename(*self, ii) == self.names@[ii]@);
                            }
                            assert(ext_origin(cmap@, prog0.externs@.len() as int)) by {
                                assert(cmap@[ii] == Some(
                                    crate::coderef::CodeRef::Extern(
                                        crate::coderef::ExternRef(
                                            prog0.externs@.len() as usize,
                                        ),
                                    ),
                                ));
                            }
                            assert forall|j: int|
                                0 <= j < cm0.len() && j != ii && (#[trigger] cm0[j]) is Some
                                    implies cm0[j] != cmap@[ii] by {
                                assert(crate::program::coderef_ok(prog0, mapped_ref(cm0[j])));
                            }
                            self.lemma_emit_stable(
                                levels@,
                                prog0,
                                *prog,
                                cm0,
                                cmap@,
                                gm0,
                                gmap@,
                                exts0,
                                exts@,
                                orig_ns,
                                lv as int,
                                ii,
                                -1,
                            );
                        }
                    },
                    None => {
                        proof {
                            lemma_first_missing_rec(*self, orig_ns, 0);
                            assert(!has_name(orig_ns, ename(*self, ii)));
                            assert forall|j: int|
                                0 <= j < ii && (#[trigger] self.entries@[j]) is Extern
                                    implies has_name(orig_ns, ename(*self, j)) by {
                                assert(levels@[j] matches Some(l) && l == 0);
                                assert(processed(levels@, j, lv as int, ii));
                            }
                            assert(first_missing_rec(*self, orig_ns, 0) == ii) by {
                                lemma_first_missing_between(*self, orig_ns, 0, ii);
                            }
                        }
                        return Err(crate::error::CompileError::ExternNotFound(name.clone()));
                    },
                }
            },
            _ => {
                proof {
                    assert(false);
                }
            },
        }
        Ok(())
    }

    /// One emission step, for an entry of this kind.
    #[verifier::loop_isolation(false)]
    #[verifier::rlimit(100)]
    #[verifier::spinoff_prover]
    fn emit_ret_at(
        &self,
        levels: &Vec<Option<usize>>,
        prog: &mut crate::program::Program,
        cmap: &mut Vec<Option<crate::coderef::CodeRef>>,
        gmap: &mut Vec<Option<crate::coderef::GroupRef>>,
        exts: &mut Vec<crate::entries::ExternEntry>,
        i: usize,
        lv: u128,
        Ghost(orig_ns): Ghost<Seq<Seq<char>>>,
    ) -> (r: Result<(), crate::error::CompileError>)
        requires
            i < self.entries@.len(),
            (levels@[i as int] matches Some(l) && l as u128 == lv),
            emit_inv(
                *self,
                levels@,
                *old(prog),
                old(cmap)@,
                old(gmap)@,
                old(exts)@,
                orig_ns,
                lv as int,
                i as int,
            ),
            self.entries@[i as int] is Ret,
        ensures
            (match r {
                Ok(_) => emit_inv(
                    *self,
                    levels@,
                    *final(prog),
                    final(cmap)@,
                    final(gmap)@,
                    final(exts)@,
                    orig_ns,
                    lv as int,
                    i as int + 1,
                ),
                Err(crate::error::CompileError::ExternNotFound(nm)) => first_missing_rec(
                    *self,
                    orig_ns,
                    0,
                ) == i as int && nm@ == ename(*self, i as int),
                Err(crate::error::CompileError::NameNotFound(nm)) => bad_target(*self)
                    && first_missing_rec(*self, orig_ns, 0) == -1 && (exists|j: int|
                    0 <= j < self.entries@.len() && (#[trigger] self.entries@[j]) is Group
                        && self.names@[j]@ == nm@),
                Err(crate::error::CompileError::CircularReference(_)) => false,
            }),
    {
        let n = self.entries.len();
        let ghost prog0 = *prog;
        let ghost cm0 = cmap@;
        let ghost gm0 = gmap@;
        let ghost exts0 = exts@;
        let ghost ii = i as int;
        proof {
            assert(cm0[ii] is None) by {
                if cm0[ii] is Some {
                    assert(processed(levels@, ii, lv as int, ii));
                }
            }
            assert(gm0[ii] is Some ==> self.entries@[ii] is Group) by {
                if gm0[ii] is Some && !(self.entries@[ii] is Group) {
                    assert(cm0[ii] is Some);
                }
            }
            assert(forall|j: int|
                0 <= j < n && #[trigger] processed(levels@, j, lv as int, ii) ==> j != ii);
            assert(prog0.entries@.len() <= usize::MAX) by {
                assert(prog0.entries.len() == prog0.entries@.len());
            }
            assert(prog0.externs@.len() <= usize::MAX) by {
                assert(prog0.externs.len() == prog0.externs@.len());
            }
            assert(prog0.groups@.len() <= usize::MAX) by {
                assert(prog0.groups.len() == prog0.groups@.len());
            }
        }
        match &self.entries[i] {
            Entry::Ret { variant } => {
                let cr = prog.add_return(*variant);
                set_vec_at(cmap, i, Some(cr));
                proof {
                    crate::program::lemma_wfc_grow(prog0, *prog);
                    assert(instr_lowered(*self, *prog, cmap@, gmap@, ii));
                    self.lemma_exts_carry(
                        levels@,
                        prog0,
                        cm0,
                        gm0,
                        exts0,
                        orig_ns,
                        lv as int,
                        ii,
                    );
                    assert(row_origin(cmap@, prog0.entries@.len() as int)) by {
                        assert(cmap@[ii] == Some(
                            crate::coderef::CodeRef::Entry(
                                crate::coderef::EntryRef(prog0.entries@.len() as usize),
                            ),
                        ));
                    }
                    assert forall|j: int|
                        0 <= j < cm0.len() && j != ii && (#[trigger] cm0[j]) is Some
                            implies cm0[j] != cmap@[ii] by {
                        assert(crate::program::coderef_ok(prog0, mapped_ref(cm0[j])));
                    }
                    self.lemma_emit_stable(
                        levels@,
                        prog0,
                        *prog,
                        cm0,
                        cmap@,
                        gm0,
                        gmap@,
                        exts0,
                        exts@,
                        orig_ns,
                        lv as int,
                        ii,
                        -1,
                    );
                }
            },
            _ => {
                proof {
                    assert(false);
                }
            },
        }
        Ok(())
    }

    /// One emission step, for an entry of this kind.
    #[verifier::loop_isolation(false)]
    #[verifier::rlimit(100)]
    #[verifier::spinoff_prover]
    fn emit_jmp_at(
        &self,
        levels: &Vec<Option<usize>>,
        prog: &mut crate::program::Program,
        cmap: &mut Vec<Option<crate::coderef::CodeRef>>,
        gmap: &mut Vec<Option<crate::coderef::GroupRef>>,
        exts: &mut Vec<crate::entries::ExternEntry>,
        i: usize,
        lv: u128,
        Ghost(orig_ns): Ghost<Seq<Seq<char>>>,
    ) -> (r: Result<(), crate::error::CompileError>)
        requires
            i < self.entries@.len(),
            (levels@[i as int] matches Some(l) && l as u128 == lv),
            emit_inv(
                *self,
                levels@,
                *old(prog),
                old(cmap)@,
                old(gmap)@,
                old(exts)@,
                orig_ns,
                lv as int,
                i as int,
            ),
            self.entries@[i as int] is Jmp,
        ensures
            (match r {
                Ok(_) => emit_inv(
                    *self,
                    levels@,
                    *final(prog),
                    final(cmap)@,
                    final(gmap)@,
                    final(exts)@,
                    orig_ns,
                    lv as int,
                    i as int + 1,
                ),
                Err(crate::error::CompileError::ExternNotFound(nm)) => first_missing_rec(
                    *self,
                    orig_ns,
                    0,
                ) == i as int && nm@ == ename(*self, i as int),
                Err(crate::error::CompileError::NameNotFound(nm)) => bad_target(*self)
                    && first_missing_rec(*self, orig_ns, 0) == -1 && (exists|j: int|
                    0 <= j < self.entries@.len() && (#[trigger] self.entries@[j]) is Group
                        && self.names@[j]@ == nm@),
                Err(crate::error::CompileError::CircularReference(_)) => false,
            }),
    {
        let n = self.entries.len();
        let ghost prog0 = *prog;
        let ghost cm0 = cmap@;
        let ghost gm0 = gmap@;
        let ghost exts0 = exts@;
        let ghost ii = i as int;
        proof {
            assert(cm0[ii] is None) by {
                if cm0[ii] is Some {
                    assert(processed(levels@, ii, lv as int, ii));
                }
            }
            assert(gm0[ii] is Some ==> self.entries@[ii] is Group) by {
                if gm0[ii] is Some && !(self.entries@[ii] is Group) {
                    assert(cm0[ii] is Some);
                }
            }
            assert(forall|j: int|
                0 <= j < n && #[trigger] processed(levels@, j, lv as int, ii) ==> j != ii);
            assert(prog0.entries@.len() <= usize::MAX) by {
                assert(prog0.entries.len() == prog0.entries@.len());
            }
            assert(prog0.externs@.len() <= usize::MAX) by {
                assert(prog0.externs.len() == prog0.externs@.len());
            }
            assert(prog0.groups@.len() <= usize::MAX) by {
                assert(prog0.groups.len() == prog0.groups@.len());
            }
        }
        match &self.entries[i] {
            Entry::Jmp { cont, per } => {
                let c = match &cmap[cont.index] {
                    Some(c) => *c,
                    None => {
                        proof {
                            self.lemma_emit_bad_target(
                                levels@,
                                prog0,
                                cm0,
                                gm0,
                                exts0,
                                orig_ns,
                                lv as int,
                                ii,
                                cont.index as int,
                            );
                            lemma_name_index_rec(
                                self.names@,
                                self.names@[cont.index as int]@,
                            );
                        }
                        return Err(
                            crate::error::CompileError::NameNotFound(
                                self.names[cont.index].clone(),
                            ),
                        );
                    },
                };
                let cr = prog.add_jump(c, *per);
                set_vec_at(cmap, i, Some(cr));
                proof {
                    crate::program::lemma_wfc_grow(prog0, *prog);
                    assert(cm0[cont.index as int] == Some(c));
                    assert(processed(levels@, cont.index as int, lv as int, ii));
                    assert(cmap@[cont.index as int] == Some(c));
                    assert(instr_lowered(*self, *prog, cmap@, gmap@, ii));
                    self.lemma_exts_carry(
                        levels@,
                        prog0,
                        cm0,
                        gm0,
                        exts0,
                        orig_ns,
                        lv as int,
                        ii,
                    );
                    assert(row_origin(cmap@, prog0.entries@.len() as int)) by {
                        assert(cmap@[ii] == Some(
                            crate::coderef::CodeRef::Entry(
                                crate::coderef::EntryRef(prog0.entries@.len() as usize),
                            ),
                        ));
                    }
                    assert forall|j: int|
                        0 <= j < cm0.len() && j != ii && (#[trigger] cm0[j]) is Some
                            implies cm0[j] != cmap@[ii] by {
                        assert(crate::program::coderef_ok(prog0, mapped_ref(cm0[j])));
                    }
                    self.lemma_emit_stable(
                        levels@,
                        prog0,
                        *prog,
                        cm0,
                        cmap@,
                        gm0,
                        gmap@,
                        exts0,
                        exts@,
                        orig_ns,
                        lv as int,
                        ii,
                        -1,
                    );
                }
            },
            _ => {
                proof {
                    assert(false);
                }
            },
        }
        Ok(())
    }

    /// One emission step, for an entry of this kind.
    #[verifier::loop_isolation(false)]
    #[verifier::rlimit(100)]
    #[verifier::spinoff_prover]
    fn emit_call_at(
        &self,
        levels: &Vec<Option<usize>>,
        prog: &mut crate::program::Program,
        cmap: &mut Vec<Option<crate::coderef::CodeRef>>,
        gmap: &mut Vec<Option<crate::coderef::GroupRef>>,
        exts: &mut Vec<crate::entries::ExternEntry>,
        i: usize,
        lv: u128,
        Ghost(orig_ns): Ghost<Seq<Seq<char>>>,
    ) -> (r: Result<(), crate::error::CompileError>)
        requires
            i < self.entries@.len(),
            (levels@[i as int] matches Some(l) && l as u128 == lv),
            emit_inv(
                *self,
                levels@,
                *old(prog),
                old(cmap)@,
                old(gmap)@,
                old(exts)@,
                orig_ns,
                lv as int,
                i as int,
            ),
            self.entries@[i as int] is Call,
        ensures
            (match r {
                Ok(_) => emit_inv(
                    *self,
                    levels@,
                    *final(prog),
                    final(cmap)@,
                    final(gmap)@,
                    final(exts)@,
                    orig_ns,
                    lv as int,
                    i as int + 1,
                ),
                Err(crate::error::CompileError::ExternNotFound(nm)) => first_missing_rec(
                    *self,
                    orig_ns,
                    0,
                ) == i as int && nm@ == ename(*self, i as int),
                Err(crate::error::CompileError::NameNotFound(nm)) => bad_target(*self)
                    && first_missing_rec(*self, orig_ns, 0) == -1 && (exists|j: int|
                    0 <= j < self.entries@.len() && (#[trigger] self.entries@[j]) is Group
                        && self.names@[j]@ == nm@),
                Err(crate::error::CompileError::CircularReference(_)) => false,
            }),
    {
        let n = self.entries.len();
        let ghost prog0 = *prog;
        let ghost cm0 = cmap@;
        let ghost gm0 = gmap@;
        let ghost exts0 = exts@;
        let ghost ii = i as int;
        proof {
            assert(cm0[ii] is None) by {
                if cm0[ii] is Some {
                    assert(processed(levels@, ii, lv as int, ii));
                }
            }
            assert(gm0[ii] is Some ==> self.entries@[ii] is Group) by {
                if gm0[ii] is Some && !(self.entries@[ii] is Group) {
                    assert(cm0[ii] is Some);
                }
            }
            assert(forall|j: int|
                0 <= j < n && #[trigger] processed(levels@, j, lv as int, ii) ==> j != ii);
            assert(prog0.entries@.len() <= usize::MAX) by {
                assert(prog0.entries.len() == prog0.entries@.len());
            }
            assert(prog0.externs@.len() <= usize::MAX) by {
                assert(prog0.externs.len() == prog0.externs@.len());
            }
            assert(prog0.groups@.len() <= usize::MAX) by {
                assert(prog0.groups.len() == prog0.groups@.len());
            }
        }
        match &self.entries[i] {
            Entry::Call { callee, callcnt, callcont } => {
                let c = match &cmap[callee.index] {
                    Some(c) => *c,
                    None => {
                        proof {
                            self.lemma_emit_bad_target(
                                levels@,
                                prog0,
                                cm0,
                                gm0,
                                exts0,
                                orig_ns,
                                lv as int,
                                ii,
                                callee.index as int,
                            );
                            lemma_name_index_rec(
                                self.names@,
                                self.names@[callee.index as int]@,
                            );
                        }
                        return Err(
                            crate::error::CompileError::NameNotFound(
                                self.names[callee.index].clone(),
                            ),
                        );
                    },
                };
                let g = match &gmap[callcont.index] {
                    Some(g) => *g,
                    None => {
                        let g = prog.add_empty_group();
                        proof {
                            crate::program::lemma_wfc_grow(prog0, *prog);
                        }
                        set_vec_at(gmap, callcont.index, Some(g));
                        let ghost prog1 = *prog;
                        match &cmap[callcont.index] {
                            Some(cc) => {
                                match prog.add_group_entry(g, *cc) {
                                    Ok(_) => {
                                        proof {
                                            crate::program::lemma_wfc_group_entry(
                                                prog1,
                                                *prog,
                                                g.0 as int,
                                                *cc,
                                            );
                                        }
                                    },
                                    Err(_) => {
                                        proof {
                                            assert(false);
                                        }
                                    },
                                }
                            },
                            None => {},
                        }
                        g
                    },
                };
                let ghost prog2 = *prog;
                let cr = prog.add_call(c, *callcnt, g);
                set_vec_at(cmap, i, Some(cr));
                proof {
                    crate::program::lemma_wfc_grow(prog2, *prog);
                    assert(cm0[callee.index as int] == Some(c));
                    assert(processed(levels@, callee.index as int, lv as int, ii));
                    assert(cmap@[callee.index as int] == Some(c));
                    assert(gmap@[callcont.index as int] == Some(g));
                    assert(instr_lowered(*self, *prog, cmap@, gmap@, ii));
                    self.lemma_exts_carry(
                        levels@,
                        prog0,
                        cm0,
                        gm0,
                        exts0,
                        orig_ns,
                        lv as int,
                        ii,
                    );
                    assert(row_origin(cmap@, prog0.entries@.len() as int)) by {
                        assert(cmap@[ii] == Some(
                            crate::coderef::CodeRef::Entry(
                                crate::coderef::EntryRef(prog0.entries@.len() as usize),
                            ),
                        ));
                    }
                    assert forall|j: int|
                        0 <= j < cm0.len() && j != ii && (#[trigger] cm0[j]) is Some
                            implies cm0[j] != cmap@[ii] by {
                        assert(crate::program::coderef_ok(prog0, mapped_ref(cm0[j])));
                    }
                    assert forall|j: int|
                        0 <= j < gm0.len() && gm0[j] is None && (#[trigger] gmap@[j]) is Some
                            implies ((gmap@[j]) matches Some(g2) && g2.0 < prog.groups@.len()
                        && group_content_ok(
                        *self,
                        *prog,
                        cmap@,
                        j,
                        g2,
                        processed(levels@, j, lv as int, ii + 1),
                    )) by {
                        assert(j == callcont.index as int);
                        assert(gmap@[j] == Some(g));
                        if self.entries@[j] is Group {
                            assert(!processed(levels@, j, lv as int, ii));
                            assert(j != ii);
                            assert(!processed(levels@, j, lv as int, ii + 1));
                            assert(crate::program::group_seq(*prog, g.0 as int) == Seq::<
                                crate::coderef::CodeRef,
                            >::empty());
                        } else {
                            assert(levels@[ii] matches Some(l) && l >= 1 && ready(
                                *self,
                                ii,
                                asg_spec(levels@, l as int),
                            ));
                            assert(processed(levels@, j, lv as int, ii));
                            assert(cm0[j] is Some);
                            assert(j != ii);
                            assert(cmap@[j] == cm0[j]);
                            assert(crate::program::group_seq(*prog, g.0 as int) == seq![
                                mapped_ref(cmap@[j]),
                            ]);
                        }
                    }
                    assert forall|j1: int, j2: int|
                        0 <= j1 < gmap@.len() && 0 <= j2 < gmap@.len() && j1 != j2
                            && #[trigger] gmap@[j1] is Some && #[trigger] gmap@[j2] is Some
                            implies gmap@[j1] != gmap@[j2] by {
                        if gm0[j1] is Some && gm0[j2] is Some {
                            assert(gmap@[j1] == gm0[j1] && gmap@[j2] == gm0[j2]);
                        } else if gm0[j1] is None {
                            assert(j1 == callcont.index as int);
                            assert(gm0[j2] is Some && gmap@[j2] == gm0[j2]);
                            assert(gmap@[j1] matches Some(gv) && gv.0 >= prog0.groups@.len());
                            assert(gm0[j2] matches Some(gv2) && gv2.0 < prog0.groups@.len());
                        } else {
                            assert(j2 == callcont.index as int);
                            assert(gm0[j1] is Some && gmap@[j1] == gm0[j1]);
                            assert(gmap@[j2] matches Some(gv) && gv.0 >= prog0.groups@.len());
                            assert(gm0[j1] matches Some(gv1) && gv1.0 < prog0.groups@.len());
                        }
                    }
                    self.lemma_emit_stable(
                        levels@,
                        prog0,
                        *prog,
                        cm0,
                        cmap@,
                        gm0,
                        gmap@,
                        exts0,
                        exts@,
                        orig_ns,
                        lv as int,
                        ii,
                        -1,
                    );
                }
            },
            _ => {
                proof {
                    assert(false);
                }
            },
        }
        Ok(())
    }

    /// One emission step, for an entry of this kind.
    #[verifier::loop_isolation(false)]
    #[verifier::rlimit(100)]
    #[verifier::spinoff_prover]
    fn emit_group_at(
        &self,
        levels: &Vec<Option<usize>>,
        prog: &mut crate::program::Program,
        cmap: &mut Vec<Option<crate::coderef::CodeRef>>,
        gmap: &mut Vec<Option<crate::coderef::GroupRef>>,
        exts: &mut Vec<crate::entries::ExternEntry>,
        i: usize,
        lv: u128,
        Ghost(orig_ns): Ghost<Seq<Seq<char>>>,
    ) -> (r: Result<(), crate::error::CompileError>)
        requires
            i < self.entries@.len(),
            (levels@[i as int] matches Some(l) && l as u128 == lv),
            emit_inv(
                *self,
                levels@,
                *old(prog),
                old(cmap)@,
                old(gmap)@,
                old(exts)@,
                orig_ns,
                lv as int,
                i as int,
            ),
            self.entries@[i as int] is Group,
        ensures
            (match r {
                Ok(_) => emit_inv(
                    *self,
                    levels@,
                    *final(prog),
                    final(cmap)@,
                    final(gmap)@,
                    final(exts)@,
                    orig_ns,
                    lv as int,
                    i as int + 1,
                ),
                Err(crate::error::CompileError::ExternNotFound(nm)) => first_missing_rec(
                    *self,
                    orig_ns,
                    0,
                ) == i as int && nm@ == ename(*self, i as int),
                Err(crate::error::CompileError::NameNotFound(nm)) => bad_target(*self)
                    && first_missing_rec(*self, orig_ns, 0) == -1 && (exists|j: int|
                    0 <= j < self.entries@.len() && (#[trigger] self.entries@[j]) is Group
                        && self.names@[j]@ == nm@),
                Err(crate::error::CompileError::CircularReference(_)) => false,
            }),
    {
        let n = self.entries.len();
        let ghost prog0 = *prog;
        let ghost cm0 = cmap@;
        let ghost gm0 = gmap@;
        let ghost exts0 = exts@;
        let ghost ii = i as int;
        proof {
            assert(cm0[ii] is None) by {
                if cm0[ii] is Some {
                    assert(processed(levels@, ii, lv as int, ii));
                }
            }
            assert(gm0[ii] is Some ==> self.entries@[ii] is Group) by {
                if gm0[ii] is Some && !(self.entries@[ii] is Group) {
                    assert(cm0[ii] is Some);
                }
            }
            assert(forall|j: int|
                0 <= j < n && #[trigger] processed(levels@, j, lv as int, ii) ==> j != ii);
            assert(prog0.entries@.len() <= usize::MAX) by {
                assert(prog0.entries.len() == prog0.entries@.len());
            }
            assert(prog0.externs@.len() <= usize::MAX) by {
                assert(prog0.externs.len() == prog0.externs@.len());
            }
            assert(prog0.groups@.len() <= usize::MAX) by {
                assert(prog0.groups.len() == prog0.groups@.len());
            }
        }
        match &self.entries[i] {
            Entry::Group { elements } => {
                let g = match &gmap[i] {
                    Some(g) => *g,
                    None => {
                        let g = prog.add_empty_group();
                        proof {
                            crate::program::lemma_wfc_grow(prog0, *prog);
                        }
                        set_vec_at(gmap, i, Some(g));
                        g
                    },
                };
                proof {
                    assert(crate::program::group_seq(*prog, g.0 as int) == Seq::<
                        crate::coderef::CodeRef,
                    >::empty()) by {
                        if gm0[ii] is Some {
                            assert(processed(levels@, ii, lv as int, ii) == false);
                            assert(group_content_ok(
                                *self,
                                prog0,
                                cm0,
                                ii,
                                g,
                                processed(levels@, ii, lv as int, ii),
                            ));
                        }
                    }
                }
                let ghost prog_g = *prog;
                let m = elements.len();
                let mut k: usize = 0;
                while k < m
                    invariant
                        k <= m,
                        m == elements@.len(),
                        self.entries@[ii] matches Entry::Group { elements: es } && es
                            == *elements,
                        g.0 < prog.groups@.len(),
                        prog.entries == prog_g.entries,
                        prog.externs == prog_g.externs,
                        prog.exports == prog_g.exports,
                        prog.groups@.len() == prog_g.groups@.len(),
                        forall|g2: int|
                            0 <= g2 < prog.groups@.len() && g2 != g.0 ==> prog.groups@[g2]
                                == prog_g.groups@[g2],
                        crate::program::group_seq(*prog, g.0 as int) =~= Seq::new(
                            k as nat,
                            |t: int| mapped_ref(cm0[elements@[t].index as int]),
                        ),
                        crate::program::wf_compiled(*prog),
                        forall|t: int|
                            0 <= t < k ==> !(self.entries@[(#[trigger] elements@[t]).index as int]
                                is Group) && cm0[elements@[t].index as int] is Some,
                    decreases m - k,
                {
                    proof {
                        assert(refs_ok(self.entries@[ii], self.entries@.len() as nat));
                        assert(elements@[k as int].index < n);
                    }
                    let c = match &cmap[elements[k].index] {
                        Some(c) => *c,
                        None => {
                            proof {
                                self.lemma_emit_bad_target(
                                    levels@,
                                    prog0,
                                    cm0,
                                    gm0,
                                    exts0,
                                    orig_ns,
                                    lv as int,
                                    ii,
                                    elements@[k as int].index as int,
                                );
                                lemma_name_index_rec(
                                    self.names@,
                                    self.names@[elements@[k as int].index as int]@,
                                );
                            }
                            return Err(
                                crate::error::CompileError::NameNotFound(
                                    self.names[elements[k].index].clone(),
                                ),
                            );
                        },
                    };
                    let ghost prog3 = *prog;
                    match prog.add_group_entry(g, c) {
                        Ok(_) => {
                            proof {
                                crate::program::lemma_wfc_group_entry(prog3, *prog, g.0 as int, c);
                                assert(crate::program::group_seq(*prog, g.0 as int) =~= Seq::new(
                                    (k + 1) as nat,
                                    |t: int| mapped_ref(cm0[elements@[t].index as int]),
                                ));
                            }
                        },
                        Err(_) => {
                            proof {
                                assert(false);
                            }
                        },
                    }
                    k = k + 1;
                }
                proof {
                    assert(crate::program::group_seq(*prog, g.0 as int) =~= resolved_group(
                        cm0,
                        elements@,
                    ));
                    assert(gmap@[ii] == Some(g));
                    assert(instr_lowered(*self, *prog, cmap@, gmap@, ii));
                    assert(entry_good(*self, ii));
                    assert(cmap@ == cm0);
                    assert(group_content_ok(
                        *self,
                        *prog,
                        cmap@,
                        ii,
                        g,
                        processed(levels@, ii, lv as int, ii + 1),
                    ));
                    self.lemma_exts_carry(
                        levels@,
                        prog0,
                        cm0,
                        gm0,
                        exts0,
                        orig_ns,
                        lv as int,
                        ii,
                    );
                    assert forall|j: int|
                        0 <= j < gm0.len() && gm0[j] is None && (#[trigger] gmap@[j]) is Some
                            implies ((gmap@[j]) matches Some(g2) && g2.0 < prog.groups@.len()
                        && group_content_ok(
                        *self,
                        *prog,
                        cmap@,
                        j,
                        g2,
                        processed(levels@, j, lv as int, ii + 1),
                    )) by {
                        assert(j == ii);
                    }
                    assert forall|j: int|
                        0 <= j < gm0.len() && j != ii implies ((#[trigger] gm0[j])
                        matches Some(gv) ==> gv.0 != g.0) by {
                        match gm0[j] {
                            None => {},
                            Some(gv) => {
                                if gm0[ii] is Some {
                                } else {
                                    assert(gv.0 < prog0.groups@.len());
                                }
                            },
                        }
                    }
                    assert forall|j1: int, j2: int|
                        0 <= j1 < gmap@.len() && 0 <= j2 < gmap@.len() && j1 != j2
                            && #[trigger] gmap@[j1] is Some && #[trigger] gmap@[j2] is Some
                            implies gmap@[j1] != gmap@[j2] by {
                        if gm0[j1] is Some && gm0[j2] is Some {
                            assert(gmap@[j1] == gm0[j1] && gmap@[j2] == gm0[j2]);
                        } else if gm0[j1] is None {
                            assert(j1 == ii);
                            assert(gm0[j2] is Some && gmap@[j2] == gm0[j2]);
                            assert(gmap@[j1] matches Some(gv) && gv.0 >= prog0.groups@.len());
                            assert(gm0[j2] matches Some(gv2) && gv2.0 < prog0.groups@.len());
                        } else {
                            assert(j2 == ii);
                            assert(gm0[j1] is Some && gmap@[j1] == gm0[j1]);
                            assert(gmap@[j2] matches Some(gv) && gv.0 >= prog0.groups@.len());
                            assert(gm0[j1] matches Some(gv1) && gv1.0 < prog0.groups@.len());
                        }
                    }
                    assert forall|g2: int|
                        0 <= g2 < prog0.groups@.len() && g2 != g.0 implies prog.groups@[g2]
                        == prog0.groups@[g2] by {
                        assert(prog.groups@[g2] == prog_g.groups@[g2]);
                    }
                    self.lemma_emit_stable(
                        levels@,
                        prog0,
                        *prog,
                        cm0,
                        cmap@,
                        gm0,
                        gmap@,
                        exts0,
                        exts@,
                        orig_ns,
                        lv as int,
                        ii,
                        g.0 as int,
                    );
                }
            },
            _ => {
                proof {
                    assert(false);
                }
            },
        }
        Ok(())
    }

    /// Lowers the entry at `i`, which stands at level `lv` of the
    /// dependency order: appends its compiled row, records its
    /// reference, and keeps the whole emission state consistent.  It
    /// fails on a placeholder the host did not provide, or on a group
    /// standing where an instruction must.
    fn emit_entry(
        &self,
        levels: &Vec<Option<usize>>,
        prog: &mut crate::program::Program,
        cmap: &mut Vec<Option<crate::coderef::CodeRef>>,
        gmap: &mut Vec<Option<crate::coderef::GroupRef>>,
        exts: &mut Vec<crate::entries::ExternEntry>,
        i: usize,
        lv: u128,
        Ghost(orig_ns): Ghost<Seq<Seq<char>>>,
    ) -> (r: Result<(), crate::error::CompileError>)
        requires
            i < self.entries@.len(),
            (levels@[i as int] matches Some(l) && l as u128 == lv),
            emit_inv(
                *self,
                levels@,
                *old(prog),
                old(cmap)@,
                old(gmap)@,
                old(exts)@,
                orig_ns,
                lv as int,
                i as int,
            ),
        ensures
            (match r {
                Ok(_) => emit_inv(
                    *self,
                    levels@,
                    *final(prog),
                    final(cmap)@,
                    final(gmap)@,
                    final(exts)@,
                    orig_ns,
                    lv as int,
                    i as int + 1,
                ),
                Err(crate::error::CompileError::ExternNotFound(nm)) => first_missing_rec(
                    *self,
                    orig_ns,
                    0,
                ) == i as int && nm@ == ename(*self, i as int),
                Err(crate::error::CompileError::NameNotFound(nm)) => bad_target(*self)
                    && first_missing_rec(*self, orig_ns, 0) == -1 && (exists|j: int|
                    0 <= j < self.entries@.len() && (#[trigger] self.entries@[j]) is Group
                        && self.names@[j]@ == nm@),
                Err(crate::error::CompileError::CircularReference(_)) => false,
            }),
    {
        match &self.entries[i] {
            Entry::Extern { .. } => self.emit_extern_at(
                levels,
                prog,
                cmap,
                gmap,
                exts,
                i,
                lv,
                Ghost(orig_ns),
            ),
            Entry::Ret { .. } => self.emit_ret_at(
                levels,
                prog,
                cmap,
                gmap,
                exts,
                i,
                lv,
                Ghost(orig_ns),
            ),
            Entry::Jmp { .. } => self.emit_jmp_at(
                levels,
                prog,
                cmap,
                gmap,
                exts,
                i,
                lv,
                Ghost(orig_ns),
            ),
            Entry::Call { .. } => self.emit_call_at(
                levels,
                prog,
                cmap,
                gmap,
                exts,
                i,
                lv,
                Ghost(orig_ns),
            ),
            Entry::Group { .. } => self.emit_group_at(
                levels,
                prog,
                cmap,
                gmap,
                exts,
                i,
                lv,
                Ghost(orig_ns),
            ),
        }
    }

    /// Attaches the exports to a fully lowered program: one export row
    /// per exported name — the recorded group for a group entry, and a
    /// fresh group holding exactly the entry's reference otherwise.
    #[verifier::loop_isolation(false)]
    #[verifier::rlimit(100)]
    #[verifier::spinoff_prover]
    fn attach_exports(
        &self,
        prog: crate::program::Program,
        cmap: &Vec<Option<crate::coderef::CodeRef>>,
        gmap: &Vec<Option<crate::coderef::GroupRef>>,
    ) -> (r: crate::program::Program)
        requires
            self.wf(),
            cmap@.len() == self.entries@.len(),
            gmap@.len() == self.entries@.len(),
            prog.exports@.len() == 0,
            crate::program::wf_compiled(prog),
            forall|j: int|
                0 <= j < self.entries@.len() ==> (if self.entries@[j] is Group {
                    (#[trigger] gmap@[j]) is Some
                } else {
                    cmap@[j] is Some
                }),
            forall|j: int|
                0 <= j < self.entries@.len() ==> ((#[trigger] cmap@[j]) matches Some(c)
                    ==> crate::program::coderef_ok(prog, c) && !(c is Termination) && !(
                self.entries@[j] is Group)),
            forall|j: int|
                0 <= j < self.entries@.len() ==> ((#[trigger] gmap@[j]) matches Some(g) ==> g.0
                    < prog.groups@.len() && group_content_ok(*self, prog, cmap@, j, g, true)),
            forall|j: int|
                0 <= j < self.entries@.len() ==> #[trigger] instr_lowered(
                    *self,
                    prog,
                    cmap@,
                    gmap@,
                    j,
                ),
            forall|j1: int, j2: int|
                0 <= j1 < cmap@.len() && 0 <= j2 < cmap@.len() && j1 != j2 && #[trigger] cmap@[j1]
                    is Some && #[trigger] cmap@[j2] is Some ==> cmap@[j1] != cmap@[j2],
            forall|e: int| 0 <= e < prog.entries@.len() ==> #[trigger] row_origin(cmap@, e),
            forall|x: int| 0 <= x < prog.externs@.len() ==> #[trigger] ext_origin(cmap@, x),
        ensures
            crate::program::wf_compiled(r),
            r.exports@.len() == self.exports@.len(),
            forall|k: int|
                0 <= k < self.exports@.len() ==> (#[trigger] r.exports@[k]).name@
                    == self.exports@[k]@,
            compiled_from(*self, r, cmap@, gmap@),
    {
        let n = self.entries.len();
        let mut prog = prog;
        let ghost prog_emit = prog;
        let ghost cmf = cmap@;
        let ghost gmf = gmap@;
        let ne = self.exports.len();
        let mut k: usize = 0;
        while k < ne
            invariant
                k <= ne,
                ne == self.exports@.len(),
                prog.entries == prog_emit.entries,
                prog.externs == prog_emit.externs,
                prog_emit.groups@.len() <= prog.groups@.len(),
                forall|g2: int|
                    0 <= g2 < prog_emit.groups@.len() ==> prog.groups@[g2]
                        == prog_emit.groups@[g2],
                crate::program::wf_compiled(prog),
                prog.exports@.len() == k,
                forall|t: int| 0 <= t < k ==> #[trigger] export_ok(*self, prog, cmf, gmf, t),
            decreases ne - k,
        {
            let name = self.exports[k].clone();
            let ghost prog4 = prog;
            let idx = match self.find_name_idx(name.as_str()) {
                Some(idx) => idx,
                None => {
                    proof {
                        assert(name_index_rec(self.names@, self.exports@[k as int]@) >= 0);
                        assert(false);
                    }
                    vstd::pervasive::unreached()
                },
            };
            proof {
                lemma_name_index_rec(self.names@, name@);
            }
            let is_grp = match &self.entries[idx] {
                Entry::Group { .. } => true,
                _ => false,
            };
            if is_grp {
                let g = match &gmap[idx] {
                    Some(g) => *g,
                    None => {
                        proof {
                            assert(false);
                        }
                        vstd::pervasive::unreached()
                    },
                };
                prog.add_export(name, g);
                proof {
                    crate::program::lemma_wfc_grow(prog4, prog);
                    assert(export_ok(*self, prog, cmf, gmf, k as int));
                }
            } else {
                let c = match &cmap[idx] {
                    Some(c) => *c,
                    None => {
                        proof {
                            assert(false);
                        }
                        vstd::pervasive::unreached()
                    },
                };
                proof {
                    assert(prog4.groups@.len() <= usize::MAX) by {
                        assert(prog4.groups.len() == prog4.groups@.len());
                    }
                }
                let g = prog.add_empty_group();
                proof {
                    crate::program::lemma_wfc_grow(prog4, prog);
                    assert(g.0 == prog4.groups@.len());
                    assert(crate::program::group_seq(prog, g.0 as int) == Seq::<
                        crate::coderef::CodeRef,
                    >::empty());
                }
                let ghost prog5 = prog;
                match prog.add_group_entry(g, c) {
                    Ok(_) => {
                        proof {
                            crate::program::lemma_wfc_group_entry(prog5, prog, g.0 as int, c);
                        }
                    },
                    Err(_) => {
                        proof {
                            assert(false);
                        }
                    },
                }
                let ghost prog6 = prog;
                prog.add_export(name, g);
                proof {
                    crate::program::lemma_wfc_grow(prog6, prog);
                    assert(crate::program::group_seq(prog, g.0 as int) =~= seq![
                        mapped_ref(cmf[idx as int]),
                    ]);
                    assert(export_ok(*self, prog, cmf, gmf, k as int));
                    assert forall|g2: int|
                        0 <= g2 < prog_emit.groups@.len() implies prog.groups@[g2]
                        == prog_emit.groups@[g2] by {
                        assert(g2 != g.0);
                        assert(prog.groups@[g2] == prog4.groups@[g2]);
                    }
                }
            }
            proof {
                assert forall|t: int|
                    0 <= t < k + 1 implies #[trigger] export_ok(*self, prog, cmf, gmf, t) by {
                    if t < k {
                        assert(export_ok(*self, prog4, cmf, gmf, t));
                        assert(prog.exports@[t] == prog4.exports@[t]);
                        let tidx = name_index_rec(self.names@, self.exports@[t]@);
                        if self.entries@[tidx] is Group {
                        } else {
                            assert(prog4.exports@[t].g.0 < prog4.groups@.len());
                            assert(prog.groups@[prog4.exports@[t].g.0 as int]
                                == prog4.groups@[prog4.exports@[t].g.0 as int]);
                        }
                    }
                }
            }
            k = k + 1;
        }
        proof {
            assert forall|j: int|
                0 <= j < n implies #[trigger] instr_lowered(*self, prog, cmf, gmf, j) by {
                assert(instr_lowered(*self, prog_emit, cmf, gmf, j));
            }
            assert forall|j: int|
                0 <= j < n implies ((#[trigger] gmf[j]) matches Some(g) ==> g.0
                < prog.groups@.len() && group_content_ok(*self, prog, cmf, j, g, true)) by {
                match gmf[j] {
                    None => {},
                    Some(g) => {
                        assert(g.0 < prog_emit.groups@.len());
                        assert(group_content_ok(*self, prog_emit, cmf, j, g, true));
                        assert(prog.groups@[g.0 as int] == prog_emit.groups@[g.0 as int]);
                        assert(crate::program::group_seq(prog, g.0 as int)
                            == crate::program::group_seq(prog_emit, g.0 as int));
                    },
                }
            }
            assert forall|t: int|
                0 <= t < self.exports@.len() implies (#[trigger] prog.exports@[t]).name@
                == self.exports@[t]@ by {
                assert(export_ok(*self, prog, cmf, gmf, t));
            }
            assert(compiled_from(*self, prog, cmf, gmf));
        }
        prog
    }

    /// Emits every entry in dependency order against a row of host
    /// externals, producing the lowered rows together with the
    /// reference recorded for each entry.  It fails on a placeholder
    /// the host did not provide (the first such, in definition
    /// order), or on a group standing where an instruction must.
    #[verifier::loop_isolation(false)]
    #[verifier::rlimit(100)]
    #[verifier::spinoff_prover]
    fn emit_all(
        &self,
        levels: &Vec<Option<usize>>,
        externs: Vec<crate::entries::ExternEntry>,
    ) -> (r: Result<
        (
            crate::program::Program,
            Vec<Option<crate::coderef::CodeRef>>,
            Vec<Option<crate::coderef::GroupRef>>,
        ),
        crate::error::CompileError,
    >)
        requires
            self.wf(),
            all_sorted(*self),
            levels@.len() == self.entries@.len(),
            forall|j: int|
                0 <= j < levels@.len() ==> (match #[trigger] levels@[j] {
                    Some(l) => l <= self.entries@.len() && (l == 0 <==> self.entries@[j]
                        is Extern) && (l >= 1 ==> ready(*self, j, asg_spec(levels@, l as int))),
                    None => !(self.entries@[j] is Extern),
                }),
            asg_spec(levels@, self.entries@.len() as int + 1) == reach_rec(
                *self,
                self.entries@.len() as nat,
            ),
        ensures
            (match r {
                Ok(_) => true,
                Err(crate::error::CompileError::ExternNotFound(nm)) => first_missing_rec(
                    *self,
                    ext_names(externs@),
                    0,
                ) >= 0 && nm@ == ename(*self, first_missing_rec(*self, ext_names(externs@), 0)),
                Err(crate::error::CompileError::NameNotFound(nm)) => bad_target(*self)
                    && first_missing_rec(*self, ext_names(externs@), 0) == -1 && (exists|j: int|
                    0 <= j < self.entries@.len() && (#[trigger] self.entries@[j]) is Group
                        && self.names@[j]@ == nm@),
                Err(crate::error::CompileError::CircularReference(_)) => false,
            }),
            (r matches Ok(t) ==> (first_missing_rec(*self, ext_names(externs@), 0) == -1
                && !bad_target(*self))),
            (r matches Ok(t) ==> (t.1@.len() == self.entries@.len() && t.2@.len()
                == self.entries@.len() && t.0.exports@.len() == 0)),
            (r matches Ok(t) ==> crate::program::wf_compiled(t.0)),
            (r matches Ok(t) ==> (forall|j: int|
                0 <= j < self.entries@.len() ==> (if self.entries@[j] is Group {
                    (#[trigger] t.2@[j]) is Some
                } else {
                    t.1@[j] is Some
                }))),
            (r matches Ok(t) ==> (forall|j: int|
                0 <= j < self.entries@.len() ==> ((#[trigger] t.1@[j]) matches Some(c)
                    ==> crate::program::coderef_ok(t.0, c) && !(c is Termination) && !(
                self.entries@[j] is Group)))),
            (r matches Ok(t) ==> (forall|j: int|
                0 <= j < self.entries@.len() ==> ((#[trigger] t.2@[j]) matches Some(g) ==> g.0
                    < t.0.groups@.len() && group_content_ok(*self, t.0, t.1@, j, g, true)))),
            (r matches Ok(t) ==> (forall|j: int|
                0 <= j < self.entries@.len() ==> #[trigger] instr_lowered(
                    *self,
                    t.0,
                    t.1@,
                    t.2@,
                    j,
                ))),
            (r matches Ok(t) ==> (forall|j1: int, j2: int|
                0 <= j1 < t.1@.len() && 0 <= j2 < t.1@.len() && j1 != j2 && #[trigger] t.1@[j1]
                    is Some && #[trigger] t.1@[j2] is Some ==> t.1@[j1] != t.1@[j2])),
            (r matches Ok(t) ==> (forall|e: int|
                0 <= e < t.0.entries@.len() ==> #[trigger] row_origin(t.1@, e))),
            (r matches Ok(t) ==> (forall|x: int|
                0 <= x < t.0.externs@.len() ==> #[trigger] ext_origin(t.1@, x))),
    {
        let n = self.entries.len();
        let ghost orig_ns = ext_names(externs@);
        let mut exts = externs;
        let mut prog = crate::program::Program::new();
        let mut cmap: Vec<Option<crate::coderef::CodeRef>> = none_vec(n);
        let mut gmap: Vec<Option<crate::coderef::GroupRef>> = none_vec(n);
        proof {
            assert(emit_inv(*self, levels@, prog, cmap@, gmap@, exts@, orig_ns, 0, 0)) by {
                assert(forall|j: int|
                    0 <= j < n ==> !#[trigger] processed(levels@, j, 0, 0));
                assert(crate::program::wf_compiled(prog));
            }
        }
        let mut lv: u128 = 0;
        while lv <= n as u128
            invariant
                lv <= n as u128 + 1,
                emit_inv(*self, levels@, prog, cmap@, gmap@, exts@, orig_ns, lv as int, 0),
            decreases n as u128 + 1 - lv,
        {
            let mut i: usize = 0;
            while i < n
                invariant
                    i <= n,
                    lv <= n as u128,
                    emit_inv(*self, levels@, prog, cmap@, gmap@, exts@, orig_ns, lv as int, i as int),
                decreases n - i,
            {
                let here = match &levels[i] {
                    Some(l) => (*l as u128) == lv,
                    None => false,
                };
                if here {
                    match self.emit_entry(
                        &levels,
                        &mut prog,
                        &mut cmap,
                        &mut gmap,
                        &mut exts,
                        i,
                        lv,
                        Ghost(orig_ns),
                    ) {
                        Ok(_) => {},
                        Err(e) => {
                            return Err(e);
                        },
                    }
                } else {
                    proof {
                        assert forall|j: int|
                            0 <= j < n implies #[trigger] processed(
                            levels@,
                            j,
                            lv as int,
                            i as int,
                        ) == processed(levels@, j, lv as int, i as int + 1) by {}
                        lemma_emit_inv_reposition(
                            *self,
                            levels@,
                            prog,
                            cmap@,
                            gmap@,
                            exts@,
                            orig_ns,
                            lv as int,
                            i as int,
                            lv as int,
                            i as int + 1,
                        );
                    }
                }
                i = i + 1;
            }
            proof {
                assert forall|j: int|
                    0 <= j < n implies #[trigger] processed(levels@, j, lv as int, n as int)
                    == processed(levels@, j, lv as int + 1, 0) by {}
                lemma_emit_inv_reposition(
                    *self,
                    levels@,
                    prog,
                    cmap@,
                    gmap@,
                    exts@,
                    orig_ns,
                    lv as int,
                    n as int,
                    lv as int + 1,
                    0,
                );
            }
            lv = lv + 1;
        }
        proof {
            assert forall|j: int| 0 <= j < n implies #[trigger] processed(
                levels@,
                j,
                lv as int,
                0,
            ) by {
                assert(level_before(levels@[j], n as int + 1) == reach_rec(*self, n as nat)[j]);
            }
            assert(first_missing_rec(*self, orig_ns, 0) == -1) by {
                lemma_first_missing_rec(*self, orig_ns, 0);
                if first_missing_rec(*self, orig_ns, 0) >= 0 {
                    let fm = first_missing_rec(*self, orig_ns, 0);
                    assert(self.entries@[fm] is Extern);
                    assert(!has_name(orig_ns, ename(*self, fm)));
                    assert(0 <= fm < n);
                    assert(processed(levels@, fm, lv as int, 0));
                    assert(has_name(orig_ns, ename(*self, fm)));
                    assert(false);
                }
            }
            assert(!bad_target(*self)) by {
                if bad_target(*self) {
                    let j = choose|j: int| 0 <= j < n && !entry_good(*self, j);
                    assert(processed(levels@, j, lv as int, 0));
                }
            }
            assert forall|j: int|
                0 <= j < n implies (if self.entries@[j] is Group {
                (#[trigger] gmap@[j]) is Some
            } else {
                cmap@[j] is Some
            }) && instr_lowered(*self, prog, cmap@, gmap@, j) by {
                assert(processed(levels@, j, lv as int, 0));
            }
            assert forall|j: int| 0 <= j < n implies #[trigger] instr_lowered(
                *self,
                prog,
                cmap@,
                gmap@,
                j,
            ) by {
                assert(processed(levels@, j, lv as int, 0));
            }
            assert forall|j: int|
                0 <= j < n implies ((#[trigger] gmap@[j]) matches Some(g) ==> g.0
                < prog.groups@.len() && group_content_ok(*self, prog, cmap@, j, g, true)) by {
                match gmap@[j] {
                    None => {},
                    Some(g) => {
                        assert(processed(levels@, j, lv as int, 0));
                        assert(group_content_ok(
                            *self,
                            prog,
                            cmap@,
                            j,
                            g,
                            processed(levels@, j, lv as int, 0),
                        ));
                    },
                }
            }
        }
        Ok((prog, cmap, gmap))
    }

    /// Lowers the program to bytecode against a row of host
    /// externals.  Entries are emitted in dependency order, so every
    /// reference an emitted instruction stores points to something
    /// already in the program.  Lowering fails on a circular
    /// reference that no group breaks, on a placeholder the host did
    /// not provide (the first such, in definition order), or on a
    /// group standing where an instruction must.
    #[verifier::loop_isolation(false)]
    #[verifier::rlimit(100)]
    #[verifier::spinoff_prover]
    pub fn compile(&self, externs: Vec<crate::entries::ExternEntry>) -> (r: Result<
        crate::program::Program,
        crate::error::CompileError,
    >)
        requires
            self.wf(),
        ensures
            !all_sorted(*self) ==> (match r {
                Err(crate::error::CompileError::CircularReference(ns)) => ({
                    let idxs = unsorted_upto(*self, self.entries@.len() as int);
                    &&& ns@.len() == idxs.len()
                    &&& (forall|k: int|
                        0 <= k < idxs.len() ==> (#[trigger] ns@[k])@ == self.names@[idxs[k]]@)
                }),
                _ => false,
            }),
            (all_sorted(*self) && first_missing_rec(*self, ext_names(externs@), 0) >= 0) ==> (
            match r {
                Err(crate::error::CompileError::ExternNotFound(nm)) => nm@ == ename(
                    *self,
                    first_missing_rec(*self, ext_names(externs@), 0),
                ),
                _ => false,
            }),
            (all_sorted(*self) && first_missing_rec(*self, ext_names(externs@), 0) == -1
                && bad_target(*self)) ==> (match r {
                Err(crate::error::CompileError::NameNotFound(nm)) => exists|j: int|
                    0 <= j < self.entries@.len() && (#[trigger] self.entries@[j]) is Group
                        && self.names@[j]@ == nm@,
                _ => false,
            }),
            (all_sorted(*self) && first_missing_rec(*self, ext_names(externs@), 0) == -1 && !bad_target(
                *self,
            )) ==> (match r {
                Ok(prog) => {
                    &&& crate::program::wf_compiled(prog)
                    &&& prog.exports@.len() == self.exports@.len()
                    &&& (forall|k: int|
                        0 <= k < self.exports@.len() ==> (#[trigger] prog.exports@[k]).name@
                            == self.exports@[k]@)
                    &&& (exists|
                        cm: Seq<Option<crate::coderef::CodeRef>>,
                        gm: Seq<Option<crate::coderef::GroupRef>>,
                    | #[trigger] compiled_from(*self, prog, cm, gm))
                },
                _ => false,
            }),
    {
        let n = self.entries.len();
        let ghost orig_ns = ext_names(externs@);
        let levels = self.dependency_sort();
        let mut unsorted: Vec<String> = Vec::new();
        let mut i: usize = 0;
        while i < n
            invariant
                i <= n,
                ({
                    let idxs = unsorted_upto(*self, i as int);
                    &&& unsorted@.len() == idxs.len()
                    &&& (forall|k: int|
                        0 <= k < idxs.len() ==> (#[trigger] unsorted@[k])@
                            == self.names@[idxs[k]]@)
                }),
            decreases n - i,
        {
            let missing = match &levels[i] {
                None => true,
                Some(_) => false,
            };
            proof {
                assert(level_before(levels@[i as int], n as int + 1) == reach_rec(
                    *self,
                    n as nat,
                )[i as int]);
                assert(missing == !reach_rec(*self, n as nat)[i as int]);
            }
            if missing {
                unsorted.push(self.names[i].clone());
            }
            i = i + 1;
        }
        if unsorted.len() > 0 {
            proof {
                let idxs = unsorted_upto(*self, n as int);
                lemma_unsorted_upto_members(*self, n as int);
                assert(idxs.len() > 0);
                let j = idxs[idxs.len() - 1];
                assert(0 <= j < n && !reach_rec(*self, n as nat)[j]);
                assert(!all_sorted(*self));
            }
            return Err(crate::error::CompileError::CircularReference(unsorted));
        }
        proof {
            assert forall|j: int| 0 <= j < n implies reach_rec(*self, n as nat)[j] by {
                lemma_unsorted_upto_all(*self, n as int, j);
            }
            assert(all_sorted(*self));
        }
        let (prog, cmap, gmap) = match self.emit_all(&levels, externs) {
            Ok(t) => t,
            Err(e) => {
                return Err(e);
            },
        };
        let prog = self.attach_exports(prog, &cmap, &gmap);
        proof {
            assert(compiled_from(*self, prog, cmap@, gmap@));
        }
        Ok(prog)
    }
}

/// Dependency-ordered emission, stated of the lowering as a whole:
/// whatever program a lowering returns is well formed — every
/// reference it stores names an existing row, and every
/// instruction-to-instruction transfer points strictly backwards, to
/// a row emitted before it.
pub proof fn lemma_compile_backwards_refs(
    p: PreCompileProgram,
    externs: Vec<crate::entries::ExternEntry>,
    r: Result<crate::program::Program, crate::error::CompileError>,
)
    requires
        p.wf(),
        call_ensures(PreCompileProgram::compile, (&p, externs), r),
    ensures
        (r matches Ok(prog) ==> crate::program::wf_compiled(prog)),
{
    match r {
        Ok(prog) => {
            assert(all_sorted(p));
            lemma_first_missing_rec(p, ext_names(externs@), 0);
            assert(first_missing_rec(p, ext_names(externs@), 0) == -1);
            assert(!bad_target(p));
            assert(crate::program::wf_compiled(prog));
        },
        Err(_) => {},
    }
}

/// The members listed by `unsorted_upto` are exactly the entries that
/// cannot be ordered.
proof fn lemma_unsorted_upto_members(p: PreCompileProgram, m: int)
    ensures
        forall|k: int|
            0 <= k < unsorted_upto(p, m).len() ==> 0 <= #[trigger] unsorted_upto(p, m)[k] < m
                && !reach_rec(p, p.entries@.len() as nat)[unsorted_upto(p, m)[k]],
    decreases m,
{
    if m > 0 {
        lemma_unsorted_upto_members(p, m - 1);
        let pre = unsorted_upto(p, m - 1);
        assert forall|k: int|
            0 <= k < unsorted_upto(p, m).len() implies 0 <= #[trigger] unsorted_upto(p, m)[k] < m
            && !reach_rec(p, p.entries@.len() as nat)[unsorted_upto(p, m)[k]] by {
            if k < pre.len() {
                assert(unsorted_upto(p, m)[k] == pre[k]);
            }
        }
    }
}

/// An entry that can be ordered is not listed; one that cannot is.
proof fn lemma_unsorted_upto_all(p: PreCompileProgram, m: int, j: int)
    requires
        0 <= j < m,
        unsorted_upto(p, m).len() == 0,
    ensures
        reach_rec(p, p.entries@.len() as nat)[j],
    decreases m,
{
    if j < m - 1 {
        lemma_unsorted_upto_all(p, m - 1, j);
    }
}

/// A missing placeholder bounded on both sides is the first missing
/// one.
proof fn lemma_first_missing_between(p: PreCompileProgram, ns: Seq<Seq<char>>, i: int, f: int)
    requires
        0 <= i <= f < p.entries@.len(),
        p.entries@[f] is Extern,
        !has_name(ns, ename(p, f)),
        forall|j: int|
            i <= j < f && (#[trigger] p.entries@[j]) is Extern ==> has_name(ns, ename(p, j)),
    ensures
        first_missing_rec(p, ns, i) == f,
    decreases f - i,
{
    if i < f {
        lemma_first_missing_between(p, ns, i + 1, f);
    }
}

/// Whether an optional level lies below a bound.
fn is_before(o: &Option<usize>, bound: usize) -> (r: bool)
    ensures
        r == level_before(*o, bound as int),
{
    match o {
        Some(l) => *l < bound,
        None => false,
    }
}

/// A name already present keeps its position when names are only
/// appended.
proof fn lemma_find_stable(pre: Seq<String>, post: Seq<String>, name: Seq<char>)
    requires
        name_index_rec(pre, name) >= 0,
        pre.len() <= post.len(),
        forall|k: int| 0 <= k < pre.len() ==> post[k] == pre[k],
    ensures
        name_index_rec(post, name) == name_index_rec(pre, name),
{
    assert(post =~= pre + post.skip(pre.len() as int));
    lemma_name_index_extend(pre, post.skip(pre.len() as int), name);
}

/// Replaces the value at a position of a vector.
fn set_vec_at<T>(v: &mut Vec<T>, i: usize, x: T)
    requires
        i < old(v)@.len(),
    ensures
        final(v)@ == old(v)@.update(i as int, x),
{
    let n = v.len();
    if i == n - 1 {
        let _ = v.pop();
        v.push(x);
        proof {
            assert(v@ =~= old(v)@.update(i as int, x));
        }
    } else {
        let _ = v.swap_remove(i);
        v.push(x);
        crate::permutation::vec_swap(v, i, n - 1);
        proof {
            assert(v@ =~= old(v)@.update(i as int, x));
        }
    }
}






} // verus!


