//! The semantic type system: the normalised types used by the analyzer, and
//! their conversion from the syntax of type annotations.
use vstd::prelude::*;
use crate::ast::TypeNode;
use crate::text::{decimal, str_eq, usize_to_string};

verus! {

/// A type as seen by semantic analysis.
#[derive(Debug, PartialEq, Eq)]
pub enum Type {
    /// The 32-bit integer type `i32`.
    I32,
    /// Booleans, produced by comparisons (the language has no literals for them).
    Bool,
    /// The unit type `()`.
    Unit,
    /// `&T` or `&mut T`.
    Ref { mutable: bool, inner: Box<Type> },
    /// `[T; N]`.
    Array { element: Box<Type>, length: usize },
    /// `(T1, T2, ...)`.
    Tuple { elements: Vec<Type> },
    /// A range `a..b`, as iterated by `for`.
    Range,
    /// A function name used as a value.
    Function,
    /// Not yet known (declared without type or initializer).
    Unknown,
    /// Never returns.
    Never,
    /// A type error already reported; compatible with everything.
    Error,
}

/// The mathematical model of a [`Type`]: the same shape, with sequences in
/// place of vectors.
pub enum Ty {
    I32,
    Bool,
    Unit,
    Ref(bool, Box<Ty>),
    Array(Box<Ty>, nat),
    Tuple(Seq<Ty>),
    Range,
    Function,
    Unknown,
    Never,
    Error,
}

impl View for Type {
    type V = Ty;

    open spec fn view(&self) -> Ty
        decreases self,
    {
        match self {
            Type::I32 => Ty::I32,
            Type::Bool => Ty::Bool,
            Type::Unit => Ty::Unit,
            Type::Ref { mutable, inner } => Ty::Ref(*mutable, Box::new((**inner).view())),
            Type::Array { element, length } => Ty::Array(Box::new((**element).view()), *length as nat),
            Type::Tuple { elements } => Ty::Tuple(tys_view(elements@)),
            Type::Range => Ty::Range,
            Type::Function => Ty::Function,
            Type::Unknown => Ty::Unknown,
            Type::Never => Ty::Never,
            Type::Error => Ty::Error,
        }
    }
}

/// The models of a list of types, in order.
pub open spec fn tys_view(s: Seq<Type>) -> Seq<Ty>
    decreases s,
{
    if s.len() == 0 {
        Seq::empty()
    } else {
        tys_view(s.subrange(0, s.len() - 1)).push(s[s.len() - 1].view())
    }
}

/// The models of a list of types, element by element.
pub proof fn lemma_tys_view(s: Seq<Type>)
    ensures
        tys_view(s).len() == s.len(),
        forall|i: int| 0 <= i < s.len() ==> #[trigger] tys_view(s)[i] == s[i]@,
    decreases s.len(),
{
    if s.len() > 0 {
        let p = s.subrange(0, s.len() - 1);
        lemma_tys_view(p);
        assert(tys_view(s) == tys_view(p).push(s[s.len() - 1]@));
        assert forall|i: int| 0 <= i < s.len() implies #[trigger] tys_view(s)[i] == s[i]@ by {
            if i < s.len() - 1 {
                assert(p[i] == s[i]);
            }
        }
    }
}

/// Lists of types with the same element models have the same model.
pub proof fn lemma_tys_view_ext(a: Seq<Type>, b: Seq<Type>)
    requires
        a.len() == b.len(),
        forall|i: int| 0 <= i < a.len() ==> (#[trigger] a[i])@ == b[i]@,
    ensures
        tys_view(a) == tys_view(b),
{
    lemma_tys_view(a);
    lemma_tys_view(b);
    assert(tys_view(a) =~= tys_view(b));
}

/// Type compatibility, used for assignments, returns and arguments: `Error`
/// and `Never` are compatible with every type; references, arrays and tuples
/// compare componentwise; other types must be the same.
pub open spec fn compatible_spec(a: Ty, b: Ty) -> bool
    decreases a,
{
    match (a, b) {
        (Ty::Error, _) => true,
        (_, Ty::Error) => true,
        (Ty::Never, _) => true,
        (_, Ty::Never) => true,
        (Ty::Ref(m1, i1), Ty::Ref(m2, i2)) => m1 == m2 && compatible_spec(*i1, *i2),
        (Ty::Array(e1, l1), Ty::Array(e2, l2)) => l1 == l2 && compatible_spec(*e1, *e2),
        (Ty::Tuple(x), Ty::Tuple(y)) => x.len() == y.len() && forall|i: int|
            0 <= i < x.len() ==> compatible_spec(#[trigger] x[i], y[i]),
        (Ty::I32, Ty::I32) => true,
        (Ty::Bool, Ty::Bool) => true,
        (Ty::Unit, Ty::Unit) => true,
        (Ty::Range, Ty::Range) => true,
        (Ty::Function, Ty::Function) => true,
        (Ty::Unknown, Ty::Unknown) => true,
        _ => false,
    }
}

/// The text shown for a type in error messages.
pub open spec fn display_spec(t: Ty) -> Seq<char>
    decreases t,
{
    match t {
        Ty::I32 => "i32"@,
        Ty::Bool => "bool"@,
        Ty::Unit => "()"@,
        Ty::Ref(mutable, inner) => if mutable {
            "&mut "@ + display_spec(*inner)
        } else {
            "&"@ + display_spec(*inner)
        },
        Ty::Array(element, length) => "["@ + display_spec(*element) + "; "@ + decimal(length) + "]"@,
        Ty::Tuple(elements) => if elements.len() == 1 {
            "("@ + join_display(elements) + ",)"@
        } else {
            "("@ + join_display(elements) + ")"@
        },
        Ty::Range => "Range<i32>"@,
        Ty::Function => "函数"@,
        Ty::Unknown => "未知类型"@,
        Ty::Never => "!"@,
        Ty::Error => "类型错误"@,
    }
}

/// The texts of a list of types, separated by `, `.
pub open spec fn join_display(s: Seq<Ty>) -> Seq<char>
    decreases s,
{
    if s.len() == 0 {
        Seq::empty()
    } else if s.len() == 1 {
        display_spec(s[0])
    } else {
        join_display(s.subrange(0, s.len() - 1)) + ", "@ + display_spec(s[s.len() - 1])
    }
}

/// `t` is the type that the annotation `n` denotes: `i32` names `I32` (any
/// other name is an error), and references, arrays, tuples and `()` map
/// componentwise.
pub open spec fn denotes(n: TypeNode, t: Ty) -> bool
    decreases n,
{
    match n {
        TypeNode::Named { name } => if name@ == "i32"@ {
            t == Ty::I32
        } else {
            t == Ty::Error
        },
        TypeNode::Reference { mutable, ty } => match t {
            Ty::Ref(m, inner) => m == mutable && denotes(*ty, *inner),
            _ => false,
        },
        TypeNode::Array { element, length } => match t {
            Ty::Array(e, l) => l == length && denotes(*element, *e),
            _ => false,
        },
        TypeNode::Tuple { elements } => match t {
            Ty::Tuple(ts) => ts.len() == elements@.len() && forall|i: int|
                0 <= i < elements@.len() ==> denotes(#[trigger] elements@[i], ts[i]),
            _ => false,
        },
        TypeNode::Unit => t == Ty::Unit,
    }
}

pub open spec fn is_known_spec(t: Ty) -> bool {
    !(t is Unknown || t is Error)
}

impl Clone for Type {
    #[verifier::loop_isolation(false)]
    fn clone(&self) -> (r: Self)
        ensures
            r@ == self@,
        decreases self,
    {
        match self {
            Type::I32 => Type::I32,
            Type::Bool => Type::Bool,
            Type::Unit => Type::Unit,
            Type::Ref { mutable, inner } => {
                let i = (**inner).clone();
                Type::Ref { mutable: *mutable, inner: Box::new(i) }
            },
            Type::Array { element, length } => {
                let e = (**element).clone();
                Type::Array { element: Box::new(e), length: *length }
            },
            Type::Tuple { elements } => {
                let mut v: Vec<Type> = Vec::new();
                let mut i: usize = 0;
                while i < elements.len()
                    invariant
                        i <= elements@.len(),
                        v@.len() == i,
                        forall|j: int| 0 <= j < i ==> (#[trigger] v@[j])@ == elements@[j]@,
                    decreases elements@.len() - i,
                {
                    let c = elements[i].clone();
                    v.push(c);
                    i = i + 1;
                }
                let r = Type::Tuple { elements: v };
                proof {
                    lemma_tys_view_ext(v@, elements@);
                }
                r
            },
            Type::Range => Type::Range,
            Type::Function => Type::Function,
            Type::Unknown => Type::Unknown,
            Type::Never => Type::Never,
            Type::Error => Type::Error,
        }
    }
}

impl Type {
    /// Whether the type is `i32`.
    pub fn is_integer(&self) -> (r: bool)
        ensures
            r == (self@ is I32),
    {
        match self {
            Type::I32 => true,
            _ => false,
        }
    }

    /// Whether the type is a reference.
    pub fn is_reference(&self) -> (r: bool)
        ensures
            r == (self@ is Ref),
    {
        match self {
            Type::Ref { .. } => true,
            _ => false,
        }
    }

    /// Whether the type is known, that is neither `Unknown` nor `Error`.
    pub fn is_known(&self) -> (r: bool)
        ensures
            r == is_known_spec(self@),
    {
        match self {
            Type::Unknown => false,
            Type::Error => false,
            _ => true,
        }
    }

    /// Whether a value of type `other` may be used where `self` is expected.
    #[verifier::loop_isolation(false)]
    pub fn compatible(&self, other: &Type) -> (r: bool)
        ensures
            r == compatible_spec(self@, other@),
            r && self@ is Ref && other@ is Ref ==> self@->Ref_0 == other@->Ref_0,
        decreases self,
    {
        match (self, other) {
            (Type::Error, _) => true,
            (_, Type::Error) => true,
            (Type::Never, _) => true,
            (_, Type::Never) => true,
            (Type::Ref { mutable: m1, inner: i1 }, Type::Ref { mutable: m2, inner: i2 }) => {
                *m1 == *m2 && (**i1).compatible(&**i2)
            },
            (Type::Array { element: e1, length: l1 }, Type::Array { element: e2, length: l2 }) => {
                *l1 == *l2 && (**e1).compatible(&**e2)
            },
            (Type::Tuple { elements: a }, Type::Tuple { elements: b }) => {
                proof {
                    lemma_tys_view(a@);
                    lemma_tys_view(b@);
                }
                if a.len() != b.len() {
                    return false;
                }
                let mut i: usize = 0;
                while i < a.len()
                    invariant
                        i <= a@.len(),
                        a@.len() == b@.len(),
                        *self == (Type::Tuple { elements: *a }),
                        forall|j: int| 0 <= j < i ==> compatible_spec(#[trigger] a@[j]@, b@[j]@),
                    decreases a@.len() - i,
                {
                    if !a[i].compatible(&b[i]) {
                        assert(!compatible_spec(tys_view(a@)[i as int], tys_view(b@)[i as int]));
                        return false;
                    }
                    i = i + 1;
                }
                assert forall|j: int| 0 <= j < tys_view(a@).len() implies compatible_spec(
                    #[trigger] tys_view(a@)[j],
                    tys_view(b@)[j],
                ) by {
                    assert(compatible_spec(a@[j]@, b@[j]@));
                }
                true
            },
            (Type::I32, Type::I32) => true,
            (Type::Bool, Type::Bool) => true,
            (Type::Unit, Type::Unit) => true,
            (Type::Range, Type::Range) => true,
            (Type::Function, Type::Function) => true,
            (Type::Unknown, Type::Unknown) => true,
            _ => false,
        }
    }

    /// The text of the type in error messages, e.g. `[i32; 3]`, `(i32,)`,
    /// `&mut i32`.
    #[verifier::loop_isolation(false)]
    pub fn display(&self) -> (s: String)
        ensures
            s@ == display_spec(self@),
        decreases self,
    {
        match self {
            Type::I32 => String::from_str("i32"),
            Type::Bool => String::from_str("bool"),
            Type::Unit => String::from_str("()"),
            Type::Ref { mutable, inner } => {
                let mut s = if *mutable {
                    String::from_str("&mut ")
                } else {
                    String::from_str("&")
                };
                let d = (**inner).display();
                s.append(d.as_str());
                s
            },
            Type::Array { element, length } => {
                let mut s = String::from_str("[");
                let d = (**element).display();
                s.append(d.as_str());
                s.append("; ");
                let n = usize_to_string(*length);
                s.append(n.as_str());
                s.append("]");
                s
            },
            Type::Tuple { elements } => {
                proof {
                    lemma_tys_view(elements@);
                }
                let mut inner = String::new();
                let mut i: usize = 0;
                while i < elements.len()
                    invariant
                        i <= elements@.len(),
                        *self == (Type::Tuple { elements: *elements }),
                        inner@ == join_display(tys_view(elements@).subrange(0, i as int)),
                    decreases elements@.len() - i,
                {
                    let d = elements[i].display();
                    proof {
                        lemma_tys_view(elements@);
                        let tv = tys_view(elements@);
                        let s1 = tv.subrange(0, i + 1);
                        assert(s1.subrange(0, s1.len() - 1) =~= tv.subrange(0, i as int));
                        assert(s1[s1.len() - 1] == elements@[i as int]@);
                        if i == 0 {
                            assert(tv.subrange(0, 0) =~= Seq::<Ty>::empty());
                        }
                    }
                    if i > 0 {
                        inner.append(", ");
                    }
                    inner.append(d.as_str());
                    i = i + 1;
                }
                assert(tys_view(elements@).subrange(0, elements@.len() as int) =~= tys_view(elements@));
                let mut s = String::from_str("(");
                s.append(inner.as_str());
                if elements.len() == 1 {
                    s.append(",)");
                } else {
                    s.append(")");
                }
                s
            },
            Type::Range => String::from_str("Range<i32>"),
            Type::Function => String::from_str("函数"),
            Type::Unknown => String::from_str("未知类型"),
            Type::Never => String::from_str("!"),
            Type::Error => String::from_str("类型错误"),
        }
    }
}

/// The type denoted by a type annotation.
#[verifier::loop_isolation(false)]
pub fn from_node(node: &TypeNode) -> (t: Type)
    ensures
        denotes(*node, t@),
    decreases node,
{
    match node {
        TypeNode::Named { name } => {
            if str_eq(name.as_str(), "i32") {
                Type::I32
            } else {
                Type::Error
            }
        },
        TypeNode::Reference { mutable, ty } => {
            let inner = from_node(&**ty);
            Type::Ref { mutable: *mutable, inner: Box::new(inner) }
        },
        TypeNode::Array { element, length } => {
            let e = from_node(&**element);
            Type::Array { element: Box::new(e), length: *length }
        },
        TypeNode::Tuple { elements } => {
            let mut v: Vec<Type> = Vec::new();
            let mut i: usize = 0;
            while i < elements.len()
                invariant
                    i <= elements@.len(),
                    *node == (TypeNode::Tuple { elements: *elements }),
                    v@.len() == i,
                    forall|j: int| 0 <= j < i ==> denotes(#[trigger] elements@[j], v@[j]@),
                decreases elements@.len() - i,
            {
                let t = from_node(&elements[i]);
                v.push(t);
                i = i + 1;
            }
            let r = Type::Tuple { elements: v };
            proof {
                lemma_tys_view(v@);
            }
            r
        },
        TypeNode::Unit => Type::Unit,
    }
}

/// A type annotation denotes one type only.
pub proof fn lemma_denotes_unique(n: TypeNode, t1: Ty, t2: Ty)
    requires
        denotes(n, t1),
        denotes(n, t2),
    ensures
        t1 == t2,
    decreases n,
{
    match n {
        TypeNode::Reference { ty, .. } => {
            lemma_denotes_unique(*ty, *t1->Ref_1, *t2->Ref_1);
        },
        TypeNode::Array { element, .. } => {
            lemma_denotes_unique(*element, *t1->Array_0, *t2->Array_0);
        },
        TypeNode::Tuple { elements } => {
            let s1 = t1->Tuple_0;
            let s2 = t2->Tuple_0;
            assert forall|i: int| 0 <= i < s1.len() implies s1[i] == s2[i] by {
                lemma_denotes_unique(elements@[i], s1[i], s2[i]);
            }
            assert(s1 =~= s2);
        },
        _ => {},
    }
}

/// Compatibility holds between a type and itself.
pub proof fn lemma_compatible_reflexive(t: Ty)
    ensures
        compatible_spec(t, t),
    decreases t,
{
    match t {
        Ty::Ref(_, inner) => lemma_compatible_reflexive(*inner),
        Ty::Array(element, _) => lemma_compatible_reflexive(*element),
        Ty::Tuple(elements) => {
            assert forall|i: int| 0 <= i < elements.len() implies compatible_spec(
                #[trigger] elements[i],
                elements[i],
            ) by {
                lemma_compatible_reflexive(elements[i]);
            }
        },
        _ => {},
    }
}

/// Compatibility is symmetric: `a` fits where `b` is expected exactly when
/// `b` fits where `a` is expected.
pub proof fn lemma_compatible_symmetric(a: Ty, b: Ty)
    ensures
        compatible_spec(a, b) == compatible_spec(b, a),
    decreases a,
{
    match (a, b) {
        (Ty::Ref(_, i1), Ty::Ref(_, i2)) => lemma_compatible_symmetric(*i1, *i2),
        (Ty::Array(e1, _), Ty::Array(e2, _)) => lemma_compatible_symmetric(*e1, *e2),
        (Ty::Tuple(x), Ty::Tuple(y)) => {
            assert forall|i: int| 0 <= i < x.len() && x.len() == y.len() implies compatible_spec(
                #[trigger] x[i],
                y[i],
            ) == compatible_spec(y[i], x[i]) by {
                lemma_compatible_symmetric(x[i], y[i]);
            }
        },
        _ => {},
    }
}

/// An already reported type error is compatible with every type, on either
/// side.
pub proof fn lemma_error_compatible(t: Ty)
    ensures
        compatible_spec(Ty::Error, t),
        compatible_spec(t, Ty::Error),
{
}

/// Apart from an already reported error and `!`, only types of the same
/// kind fit each other: arrays of the same length, tuples of the same
/// arity, references of the same mutability.
pub proof fn law_compatible_types_share_their_shape(a: Ty, b: Ty)
    requires
        !(a is Error || a is Never || b is Error || b is Never),
        compatible_spec(a, b),
    ensures
        a is I32 <==> b is I32,
        a is Bool <==> b is Bool,
        a is Unit <==> b is Unit,
        a is Range <==> b is Range,
        a is Function <==> b is Function,
        a is Unknown <==> b is Unknown,
        a is Ref <==> b is Ref,
        a is Array <==> b is Array,
        a is Tuple <==> b is Tuple,
        a is Ref ==> a->Ref_0 == b->Ref_0,
        a is Array ==> a->Array_1 == b->Array_1,
        a is Tuple ==> a->Tuple_0.len() == b->Tuple_0.len(),
        a is Tuple ==> forall|i: int| 0 <= i < a->Tuple_0.len() ==> compatible_spec(#[trigger] a->Tuple_0[i], b->Tuple_0[i]),
        a is Array ==> compatible_spec(*a->Array_0, *b->Array_0),
        a is Ref ==> compatible_spec(*a->Ref_1, *b->Ref_1),
{
}

/// A shared reference never fits where a mutable one is expected, nor the
/// other way round; between references of the same kind, fitting is fitting
/// of what they point to.
pub proof fn law_reference_kinds_never_mix(m1: bool, a: Ty, m2: bool, b: Ty)
    ensures
        compatible_spec(Ty::Ref(m1, Box::new(a)), Ty::Ref(m2, Box::new(b))) ==> m1 == m2,
        m1 == m2 ==> (compatible_spec(Ty::Ref(m1, Box::new(a)), Ty::Ref(m2, Box::new(b))) <==> compatible_spec(a, b)),
{
}

} // verus!
