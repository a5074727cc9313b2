//! Linear types for programs: a type is a named or anonymous choice
//! of variants, each variant a tuple of types.

use vstd::prelude::*;

verus! {

/// A tuple of types: the shape of one variant.
#[derive(Debug)]
pub struct TupleType {
    pub elements: Vec<LCType>,
}

/// A type: an optional name and the variants a value offers.
#[derive(Debug)]
pub struct LCType {
    pub name: Option<String>,
    pub variants: Vec<TupleType>,
}

/// The rendered texts of a row of parts, joined by a separator.
pub open spec fn join_with(parts: Seq<Seq<char>>, sep: Seq<char>) -> Seq<char>
    decreases parts.len(),
{
    if parts.len() == 0 {
        Seq::empty()
    } else if parts.len() == 1 {
        parts[0]
    } else {
        join_with(parts.drop_last(), sep) + sep + parts.last()
    }
}

/// The text of a type: its name, then, unless it is an atom, its
/// variants between braces after a negation mark; an anonymous type
/// with a single variant is just that variant negated.
pub open spec fn lct_text(t: LCType) -> Seq<char>
    decreases t, 1int,
    via lct_text_decreases
{
    match t.name {
        Some(nm) => {
            if t.variants@.len() == 0 {
                nm@
            } else {
                nm@ + ":~{"@ + join_with(tup_texts(t.variants@), "; "@) + "}"@
            }
        },
        None => {
            if t.variants@.len() == 1 {
                "~"@ + tup_text(t.variants@[0])
            } else {
                "~{"@ + join_with(tup_texts(t.variants@), "; "@) + "}"@
            }
        },
    }
}

#[via_fn]
proof fn lct_text_decreases(t: LCType) {
    assert(decreases_to!(t => t.variants));
    assert(decreases_to!(t.variants => t.variants@));
}

/// The texts of a row of tuples, back to front.
pub open spec fn tup_texts(s: Seq<TupleType>) -> Seq<Seq<char>>
    decreases s, 0int,
{
    if s.len() == 0 {
        Seq::empty()
    } else {
        tup_texts(s.subrange(0, s.len() - 1)).push(tup_text(s[s.len() - 1]))
    }
}

/// The text of a tuple: a single element stands alone; otherwise the
/// elements are joined between parentheses.
pub open spec fn tup_text(tt: TupleType) -> Seq<char>
    decreases tt, 1int,
    via tup_text_decreases
{
    if tt.elements@.len() == 1 {
        lct_text(tt.elements@[0])
    } else {
        "("@ + join_with(lct_texts(tt.elements@), ", "@) + ")"@
    }
}

#[via_fn]
proof fn tup_text_decreases(tt: TupleType) {
    assert(decreases_to!(tt => tt.elements));
    assert(decreases_to!(tt.elements => tt.elements@));
}

/// The texts of a row of types, back to front.
pub open spec fn lct_texts(s: Seq<LCType>) -> Seq<Seq<char>>
    decreases s, 0int,
{
    if s.len() == 0 {
        Seq::empty()
    } else {
        lct_texts(s.subrange(0, s.len() - 1)).push(lct_text(s[s.len() - 1]))
    }
}

/// Whether two types are the same: equal names, and the same variants
/// in the same order.
pub open spec fn lct_eq(a: LCType, b: LCType) -> bool
    decreases a, 1int,
    via lct_eq_decreases
{
    &&& (match (a.name, b.name) {
        (Some(x), Some(y)) => x@ == y@,
        (None, None) => true,
        _ => false,
    })
    &&& tups_eq(a.variants@, b.variants@)
}

#[via_fn]
proof fn lct_eq_decreases(a: LCType, b: LCType) {
    assert(decreases_to!(a => a.variants));
    assert(decreases_to!(a.variants => a.variants@));
}

/// Whether two rows of tuples are the same, position by position.
pub open spec fn tups_eq(s1: Seq<TupleType>, s2: Seq<TupleType>) -> bool
    decreases s1, 0int,
{
    if s1.len() != s2.len() {
        false
    } else if s1.len() == 0 {
        true
    } else {
        tups_eq(s1.subrange(0, s1.len() - 1), s2.subrange(0, s2.len() - 1)) && tup_eq(
            s1[s1.len() - 1],
            s2[s2.len() - 1],
        )
    }
}

/// Whether two tuples are the same, element by element.
pub open spec fn tup_eq(a: TupleType, b: TupleType) -> bool
    decreases a, 1int,
    via tup_eq_decreases
{
    lcts_eq(a.elements@, b.elements@)
}

#[via_fn]
proof fn tup_eq_decreases(a: TupleType, b: TupleType) {
    assert(decreases_to!(a => a.elements));
    assert(decreases_to!(a.elements => a.elements@));
}

/// Whether two rows of types are the same, position by position.
pub open spec fn lcts_eq(s1: Seq<LCType>, s2: Seq<LCType>) -> bool
    decreases s1, 0int,
{
    if s1.len() != s2.len() {
        false
    } else if s1.len() == 0 {
        true
    } else {
        lcts_eq(s1.subrange(0, s1.len() - 1), s2.subrange(0, s2.len() - 1)) && lct_eq(
            s1[s1.len() - 1],
            s2[s2.len() - 1],
        )
    }
}

/// `tups_eq` reads pointwise.
pub proof fn lemma_tups_eq(s1: Seq<TupleType>, s2: Seq<TupleType>)
    ensures
        tups_eq(s1, s2) == (s1.len() == s2.len() && (forall|k: int|
            0 <= k < s1.len() ==> tup_eq(#[trigger] s1[k], s2[k]))),
    decreases s1.len(),
{
    if s1.len() == s2.len() && s1.len() > 0 {
        let a = s1.subrange(0, s1.len() - 1);
        let b = s2.subrange(0, s2.len() - 1);
        lemma_tups_eq(a, b);
        if tups_eq(s1, s2) {
            assert forall|k: int| 0 <= k < s1.len() implies tup_eq(#[trigger] s1[k], s2[k]) by {
                if k < s1.len() - 1 {
                    assert(tup_eq(a[k], b[k]));
                }
            }
        }
        if forall|k: int| 0 <= k < s1.len() ==> tup_eq(#[trigger] s1[k], s2[k]) {
            assert forall|k: int| 0 <= k < a.len() implies tup_eq(#[trigger] a[k], b[k]) by {
                assert(tup_eq(s1[k], s2[k]));
            }
            assert(tups_eq(a, b));
        }
    }
}

/// `lcts_eq` reads pointwise.
pub proof fn lemma_lcts_eq(s1: Seq<LCType>, s2: Seq<LCType>)
    ensures
        lcts_eq(s1, s2) == (s1.len() == s2.len() && (forall|k: int|
            0 <= k < s1.len() ==> lct_eq(#[trigger] s1[k], s2[k]))),
    decreases s1.len(),
{
    if s1.len() == s2.len() && s1.len() > 0 {
        let a = s1.subrange(0, s1.len() - 1);
        let b = s2.subrange(0, s2.len() - 1);
        lemma_lcts_eq(a, b);
        if lcts_eq(s1, s2) {
            assert forall|k: int| 0 <= k < s1.len() implies lct_eq(#[trigger] s1[k], s2[k]) by {
                if k < s1.len() - 1 {
                    assert(lct_eq(a[k], b[k]));
                }
            }
        }
        if forall|k: int| 0 <= k < s1.len() ==> lct_eq(#[trigger] s1[k], s2[k]) {
            assert forall|k: int| 0 <= k < a.len() implies lct_eq(#[trigger] a[k], b[k]) by {
                assert(lct_eq(s1[k], s2[k]));
            }
            assert(lcts_eq(a, b));
        }
    }
}

impl LCType {
    /// An atom: a name without variants.
    pub fn atom(name: &str) -> (r: Self)
        ensures
            lct_text(r) == name@,
            (r.name matches Some(nm) && nm@ == name@),
            r.variants@.len() == 0,
    {
        Self::named(name, Vec::new())
    }

    /// A named type over the given variants.
    pub fn named(name: &str, variants: Vec<TupleType>) -> (r: Self)
        ensures
            (r.name matches Some(nm) && nm@ == name@),
            r.variants == variants,
    {
        LCType { name: Some(name.to_owned()), variants }
    }

    /// An anonymous type over the given variants.
    pub fn unnamed(variants: Vec<TupleType>) -> (r: Self)
        ensures
            r.name is None,
            r.variants == variants,
    {
        LCType { name: None, variants }
    }

    /// The negation of a type: an anonymous type whose single variant
    /// holds it alone.
    pub fn negation(t: LCType) -> (r: Self)
        ensures
            r.name is None,
            r.variants@.len() == 1,
            r.variants@[0].elements@.len() == 1,
            lct_eq(r.variants@[0].elements@[0], t) == lct_eq(t, t),
            lct_text(r) == "~"@ + tup_text(r.variants@[0]),
            r.variants@[0] == (TupleType { elements: r.variants@[0].elements }),
            lct_text(r.variants@[0].elements@[0]) == lct_text(t),
    {
        let t2 = TupleType::new(vec_of_one(t));
        let mut vs: Vec<TupleType> = Vec::new();
        vs.push(t2);
        let r = Self::unnamed(vs);
        proof {
            assert(r.variants@[0].elements@[0] == r.variants@[0].elements@[0]);
        }
        r
    }

    /// The bottom type: the negation of the unit tuple.
    pub fn bottom() -> (r: Self)
        ensures
            lct_text(r) == "~()"@,
    {
        let u = TupleType::unit();
        let mut vs: Vec<TupleType> = Vec::new();
        vs.push(u);
        let r = Self::unnamed(vs);
        proof {
            reveal_strlit("~");
            reveal_strlit("()");
            reveal_strlit("~()");
            assert(lct_text(r) =~= "~()"@);
        }
        r
    }

    /// The empty type: an anonymous type without variants.
    pub fn empty() -> (r: Self)
        ensures
            lct_text(r) == "~{}"@,
            r.name is None,
            r.variants@.len() == 0,
    {
        let r = Self::unnamed(Vec::new());
        proof {
            reveal_strlit("~{");
            reveal_strlit("}");
            reveal_strlit("~{}");
            assert(tup_texts(r.variants@) == Seq::<Seq<char>>::empty());
            assert(lct_text(r) =~= "~{}"@);
        }
        r
    }

    /// An anonymous type whose single variant is the given tuple of
    /// types.
    pub fn ntuple(elements: Vec<LCType>) -> (r: Self)
        ensures
            r.name is None,
            r.variants@.len() == 1,
            r.variants@[0].elements == elements,
    {
        let tt = TupleType::new(elements);
        let mut vs: Vec<TupleType> = Vec::new();
        vs.push(tt);
        Self::unnamed(vs)
    }
}

impl TupleType {
    /// A tuple over the given types.
    pub fn new(elements: Vec<LCType>) -> (r: Self)
        ensures
            r.elements == elements,
    {
        TupleType { elements }
    }

    /// The unit tuple: no elements.
    pub fn unit() -> (r: Self)
        ensures
            r.elements@.len() == 0,
            tup_text(r) == "()"@,
    {
        let r = Self::new(Vec::new());
        proof {
            reveal_strlit("(");
            reveal_strlit(")");
            reveal_strlit("()");
            assert(lct_texts(r.elements@) == Seq::<Seq<char>>::empty());
            assert(tup_text(r) =~= "()"@);
        }
        r
    }

    /// A tuple holding the negation of a type.
    pub fn negation(t: LCType) -> (r: Self)
        ensures
            r.elements@.len() == 1,
            r.elements@[0].name is None,
            r.elements@[0].variants@.len() == 1,
            lct_text(r.elements@[0]) == "~"@ + tup_text(r.elements@[0].variants@[0]),
            lct_text(r.elements@[0].variants@[0].elements@[0]) == lct_text(t),
    {
        let n = LCType::negation(t);
        Self::new(vec_of_one(n))
    }

    /// A tuple holding one anonymous tuple type over the given
    /// elements.
    pub fn ntuple(elements: Vec<LCType>) -> (r: Self)
        ensures
            r.elements@.len() == 1,
            r.elements@[0].name is None,
            r.elements@[0].variants@.len() == 1,
            r.elements@[0].variants@[0].elements == elements,
    {
        let t = LCType::ntuple(elements);
        Self::new(vec_of_one(t))
    }
}

impl LCType {
    /// Renders the type as text.
    pub fn to_text(&self) -> (r: String)
        ensures
            r@ == lct_text(*self),
        decreases *self, 3int,
    {
        match &self.name {
            Some(nm) => {
                if self.variants.len() == 0 {
                    nm.clone()
                } else {
                    let mut out = nm.clone();
                    out.append(":~{");
                    proof {
                        assert(decreases_to!(*self, 3int => self.variants, 2int)) by {
                            assert(decreases_to!(*self => self.variants));
                        }
                    }
                    let inner = tup_row_text(&self.variants);
                    out.append(inner.as_str());
                    out.append("}");
                    proof {
                        assert(out@ =~= lct_text(*self));
                    }
                    out
                }
            },
            None => {
                if self.variants.len() == 1 {
                    let mut out = String::from_str("~");
                    proof {
                        assert(decreases_to!(*self, 3int => self.variants@[0], 4int)) by {
                            assert(decreases_to!(*self => self.variants));
                            assert(decreases_to!(self.variants => self.variants@));
                            assert(decreases_to!(self.variants@ => self.variants@[0]));
                        }
                    }
                    let inner = self.variants[0].to_text();
                    out.append(inner.as_str());
                    proof {
                        assert(out@ =~= lct_text(*self));
                    }
                    out
                } else {
                    let mut out = String::from_str("~{");
                    proof {
                        assert(decreases_to!(*self, 3int => self.variants, 2int)) by {
                            assert(decreases_to!(*self => self.variants));
                        }
                    }
                    let inner = tup_row_text(&self.variants);
                    out.append(inner.as_str());
                    out.append("}");
                    proof {
                        assert(out@ =~= lct_text(*self));
                    }
                    out
                }
            },
        }
    }
}

impl TupleType {
    /// Renders the tuple as text.
    pub fn to_text(&self) -> (r: String)
        ensures
            r@ == tup_text(*self),
        decreases *self, 3int,
    {
        if self.elements.len() == 1 {
            proof {
                assert(decreases_to!(*self, 3int => self.elements@[0], 4int)) by {
                    assert(decreases_to!(*self => self.elements));
                    assert(decreases_to!(self.elements => self.elements@));
                    assert(decreases_to!(self.elements@ => self.elements@[0]));
                }
            }
            self.elements[0].to_text()
        } else {
            let mut out = String::from_str("(");
            proof {
                assert(decreases_to!(*self, 3int => self.elements, 2int)) by {
                    assert(decreases_to!(*self => self.elements));
                }
            }
            let inner = lct_row_text(&self.elements);
            out.append(inner.as_str());
            out.append(")");
            proof {
                assert(out@ =~= tup_text(*self));
            }
            out
        }
    }
}

/// Renders a row of tuples, joined by semicolons.
fn tup_row_text(v: &Vec<TupleType>) -> (r: String)
    ensures
        r@ == join_with(tup_texts(v@), "; "@),
    decreases *v, 2int,
{
    let mut out = String::new();
    let n = v.len();
    let mut i: usize = 0;
    while i < n
        invariant
            i <= n,
            n == v@.len(),
            out@ == join_with(tup_texts(v@.take(i as int)), "; "@),
        decreases n - i,
    {
        if i > 0 {
            out.append("; ");
        }
        proof {
            assert(decreases_to!(*v, 2int => v@[i as int], 3int)) by {
                assert(decreases_to!(*v => v@));
                assert(decreases_to!(v@ => v@[i as int]));
            }
        }
        let part = v[i].to_text();
        out.append(part.as_str());
        proof {
            let pre = v@.take(i as int);
            let cur = v@.take(i as int + 1);
            assert(cur.subrange(0, cur.len() - 1) =~= pre);
            assert(tup_texts(cur) == tup_texts(pre).push(tup_text(v@[i as int])));
            assert(tup_texts(pre).push(tup_text(v@[i as int])).drop_last() =~= tup_texts(pre));
            assert(out@ =~= join_with(tup_texts(cur), "; "@));
        }
        i = i + 1;
    }
    proof {
        assert(v@.take(n as int) =~= v@);
    }
    out
}

/// Renders a row of types, joined by commas.
fn lct_row_text(v: &Vec<LCType>) -> (r: String)
    ensures
        r@ == join_with(lct_texts(v@), ", "@),
    decreases *v, 2int,
{
    let mut out = String::new();
    let n = v.len();
    let mut i: usize = 0;
    while i < n
        invariant
            i <= n,
            n == v@.len(),
            out@ == join_with(lct_texts(v@.take(i as int)), ", "@),
        decreases n - i,
    {
        if i > 0 {
            out.append(", ");
        }
        proof {
            assert(decreases_to!(*v, 2int => v@[i as int], 3int)) by {
                assert(decreases_to!(*v => v@));
                assert(decreases_to!(v@ => v@[i as int]));
            }
        }
        let part = v[i].to_text();
        out.append(part.as_str());
        proof {
            let pre = v@.take(i as int);
            let cur = v@.take(i as int + 1);
            assert(cur.subrange(0, cur.len() - 1) =~= pre);
            assert(lct_texts(cur) == lct_texts(pre).push(lct_text(v@[i as int])));
            assert(lct_texts(pre).push(lct_text(v@[i as int])).drop_last() =~= lct_texts(pre));
            assert(out@ =~= join_with(lct_texts(cur), ", "@));
        }
        i = i + 1;
    }
    proof {
        assert(v@.take(n as int) =~= v@);
    }
    out
}

/// Compares two types structurally.
fn lct_eq_exec(a: &LCType, b: &LCType) -> (r: bool)
    ensures
        r == lct_eq(*a, *b),
    decreases *a, 3int,
{
    let names_match = match (&a.name, &b.name) {
        (Some(x), Some(y)) => *x == *y,
        (None, None) => true,
        _ => false,
    };
    if !names_match {
        return false;
    }
    let n = a.variants.len();
    if n != b.variants.len() {
        proof {
            lemma_tups_eq(a.variants@, b.variants@);
        }
        return false;
    }
    let mut i: usize = 0;
    let mut same = true;
    while i < n && same
        invariant
            i <= n,
            n == a.variants@.len() == b.variants@.len(),
            same == (forall|k: int|
                0 <= k < i ==> tup_eq(#[trigger] a.variants@[k], b.variants@[k])),
        decreases n - i,
    {
        proof {
            assert(decreases_to!(*a, 3int => a.variants@[i as int], 4int)) by {
                assert(decreases_to!(*a => a.variants));
                assert(decreases_to!(a.variants => a.variants@));
                assert(decreases_to!(a.variants@ => a.variants@[i as int]));
            }
        }
        if !tup_eq_exec(&a.variants[i], &b.variants[i]) {
            same = false;
        }
        i = i + 1;
    }
    proof {
        lemma_tups_eq(a.variants@, b.variants@);
    }
    same
}

/// Compares two tuples structurally.
fn tup_eq_exec(a: &TupleType, b: &TupleType) -> (r: bool)
    ensures
        r == tup_eq(*a, *b),
    decreases *a, 3int,
{
    let n = a.elements.len();
    if n != b.elements.len() {
        proof {
            lemma_lcts_eq(a.elements@, b.elements@);
        }
        return false;
    }
    let mut i: usize = 0;
    let mut same = true;
    while i < n && same
        invariant
            i <= n,
            n == a.elements@.len() == b.elements@.len(),
            same == (forall|k: int|
                0 <= k < i ==> lct_eq(#[trigger] a.elements@[k], b.elements@[k])),
        decreases n - i,
    {
        proof {
            assert(decreases_to!(*a, 3int => a.elements@[i as int], 4int)) by {
                assert(decreases_to!(*a => a.elements));
                assert(decreases_to!(a.elements => a.elements@));
                assert(decreases_to!(a.elements@ => a.elements@[i as int]));
            }
        }
        if !lct_eq_exec(&a.elements[i], &b.elements[i]) {
            same = false;
        }
        i = i + 1;
    }
    proof {
        lemma_lcts_eq(a.elements@, b.elements@);
    }
    same
}

impl PartialEq for LCType {
    /// Two types are equal when their names and variants are.
    fn eq(&self, other: &Self) -> (r: bool) {
        lct_eq_exec(self, other)
    }
}

impl vstd::std_specs::cmp::PartialEqSpecImpl for LCType {
    open spec fn obeys_eq_spec() -> bool {
        true
    }

    open spec fn eq_spec(&self, other: &LCType) -> bool {
        lct_eq(*self, *other)
    }
}

impl PartialEq for TupleType {
    /// Two tuples are equal when their elements are.
    fn eq(&self, other: &Self) -> (r: bool) {
        tup_eq_exec(self, other)
    }
}

impl vstd::std_specs::cmp::PartialEqSpecImpl for TupleType {
    open spec fn obeys_eq_spec() -> bool {
        true
    }

    open spec fn eq_spec(&self, other: &TupleType) -> bool {
        tup_eq(*self, *other)
    }
}

/// A vector of exactly one value.
fn vec_of_one<T>(x: T) -> (r: Vec<T>)
    ensures
        r@ == seq![x],
{
    let mut v: Vec<T> = Vec::new();
    v.push(x);
    proof {
        assert(v@ =~= seq![x]);
    }
    v
}

} // verus!
