//! Quadruple intermediate code.
//!
//! Operation codes: `=` assignment `(=, src, _, dst)`; `*=` write through a
//! reference; `[]=` array element write `([]=, value, index, array)`; `.=`
//! tuple field write `(.=, value, field, tuple)`; `INDEX`/`FIELD` element
//! reads; `+ - * /` arithmetic;
//! `< <= > >= == !=` comparisons yielding 0/1; `NEG`; `DEREF`; `FUNC` /
//! `END_FUNC` function bounds; `PARAM_DECL`; `PARAM`; `CALL` `(CALL, name,
//! argc, result)`; `RETURN`; `LABEL`; `GOTO` `(GOTO, _, _, label)`;
//! `IF_FALSE` `(IF_FALSE, cond, _, label)`; `BREAK`/`CONTINUE` carrying the
//! label of the loop's end / of where its next pass starts; `ARRAY`/`TUPLE`
//! aggregates. Unused slots hold `_`; temporaries are named `tN` and labels
//! `LN`.
use vstd::prelude::*;
use crate::text::{decimal, usize_to_string};

verus! {

/// The placeholder for an unused quadruple slot.
pub const PLACEHOLDER: &'static str = "_";

/// One instruction: an operation and up to three operands.
#[derive(Debug, Clone)]
pub struct Quadruple {
    pub op: String,
    pub arg1: String,
    pub arg2: String,
    pub result: String,
}

/// The texts of a quadruple's four slots.
pub type QuadText = (Seq<char>, Seq<char>, Seq<char>, Seq<char>);

impl View for Quadruple {
    type V = QuadText;

    open spec fn view(&self) -> QuadText {
        (self.op@, self.arg1@, self.arg2@, self.result@)
    }
}

/// The texts of a list of quadruples.
pub open spec fn quads_text(q: Seq<Quadruple>) -> Seq<QuadText> {
    Seq::new(q.len(), |i: int| q[i]@)
}

/// `a` is a prefix of `b`.
pub open spec fn prefix_of<T>(a: Seq<T>, b: Seq<T>) -> bool {
    a.len() <= b.len() && forall|i: int| 0 <= i < a.len() ==> #[trigger] b[i] == a[i]
}

/// The name of the `n`-th temporary: `t` followed by `n` in decimal.
pub open spec fn temp_name(n: nat) -> Seq<char> {
    "t"@ + decimal(n)
}

/// The name of the `n`-th label: `L` followed by `n` in decimal.
pub open spec fn label_name(n: nat) -> Seq<char> {
    "L"@ + decimal(n)
}

/// The counter value after one more allocation (wrapping like release-mode
/// arithmetic at the top of the range).
pub open spec fn next_count(n: usize) -> usize {
    if n < usize::MAX { (n + 1) as usize } else { 0 }
}

impl Quadruple {
    pub fn new(op: &str, arg1: &str, arg2: &str, result: &str) -> (q: Self)
        ensures
            q@ == (op@, arg1@, arg2@, result@),
    {
        Quadruple {
            op: String::from_str(op),
            arg1: String::from_str(arg1),
            arg2: String::from_str(arg2),
            result: String::from_str(result),
        }
    }
}

/// Collects quadruples and hands out fresh temporaries and labels.
#[derive(Debug)]
pub struct IrBuilder {
    pub quads: Vec<Quadruple>,
    next_temp: usize,
    next_label: usize,
}

impl IrBuilder {
    /// The quadruples emitted so far.
    pub closed spec fn code(&self) -> Seq<Quadruple> {
        self.quads@
    }

    /// How many temporaries have been handed out.
    pub closed spec fn temps(&self) -> usize {
        self.next_temp
    }

    /// How many labels have been handed out.
    pub closed spec fn labels(&self) -> usize {
        self.next_label
    }

    pub fn new() -> (b: Self)
        ensures
            b.code().len() == 0,
            b.temps() == 0,
            b.labels() == 0,
    {
        IrBuilder { quads: Vec::new(), next_temp: 0, next_label: 0 }
    }

    /// The quadruples emitted, in order.
    pub fn into_quads(self) -> (q: Vec<Quadruple>)
        ensures
            q@ == self.code(),
    {
        self.quads
    }

    /// A fresh temporary `tN`, numbering from 1.
    pub fn new_temp(&mut self) -> (name: String)
        ensures
            final(self).temps() == next_count(old(self).temps()),
            final(self).labels() == old(self).labels(),
            final(self).code() == old(self).code(),
            name@ == temp_name(final(self).temps() as nat),
    {
        self.next_temp = self.next_temp.wrapping_add(1);
        let mut s = String::from_str("t");
        let n = usize_to_string(self.next_temp);
        s.append(n.as_str());
        s
    }

    /// A fresh label `LN`, numbering from 1.
    pub fn new_label(&mut self) -> (name: String)
        ensures
            final(self).labels() == next_count(old(self).labels()),
            final(self).temps() == old(self).temps(),
            final(self).code() == old(self).code(),
            name@ == label_name(final(self).labels() as nat),
    {
        self.next_label = self.next_label.wrapping_add(1);
        let mut s = String::from_str("L");
        let n = usize_to_string(self.next_label);
        s.append(n.as_str());
        s
    }

    /// Appends one quadruple.
    pub fn emit(&mut self, op: &str, arg1: &str, arg2: &str, result: &str)
        ensures
            final(self).code().len() == old(self).code().len() + 1,
            prefix_of(old(self).code(), final(self).code()),
            final(self).code().last()@ == (op@, arg1@, arg2@, result@),
            final(self).temps() == old(self).temps(),
            final(self).labels() == old(self).labels(),
    {
        let q = Quadruple::new(op, arg1, arg2, result);
        self.quads.push(q);
        assert(self.quads@.subrange(0, old(self).quads@.len() as int) =~= old(self).quads@);
    }

    /// Appends `(LABEL, label, _, _)`.
    pub fn emit_label(&mut self, label: &str)
        ensures
            final(self).code().len() == old(self).code().len() + 1,
            prefix_of(old(self).code(), final(self).code()),
            final(self).code().last()@ == ("LABEL"@, label@, PLACEHOLDER@, PLACEHOLDER@),
            final(self).temps() == old(self).temps(),
            final(self).labels() == old(self).labels(),
    {
        self.emit("LABEL", label, PLACEHOLDER, PLACEHOLDER);
    }

    /// Appends `(GOTO, _, _, label)`.
    pub fn emit_goto(&mut self, label: &str)
        ensures
            final(self).code().len() == old(self).code().len() + 1,
            prefix_of(old(self).code(), final(self).code()),
            final(self).code().last()@ == ("GOTO"@, PLACEHOLDER@, PLACEHOLDER@, label@),
            final(self).temps() == old(self).temps(),
            final(self).labels() == old(self).labels(),
    {
        self.emit("GOTO", PLACEHOLDER, PLACEHOLDER, label);
    }

    /// Appends `(IF_FALSE, cond, _, label)`.
    pub fn emit_if_false(&mut self, cond: &str, label: &str)
        ensures
            final(self).code().len() == old(self).code().len() + 1,
            prefix_of(old(self).code(), final(self).code()),
            final(self).code().last()@ == ("IF_FALSE"@, cond@, PLACEHOLDER@, label@),
            final(self).temps() == old(self).temps(),
            final(self).labels() == old(self).labels(),
    {
        self.emit("IF_FALSE", cond, PLACEHOLDER, label);
    }
}

/// Different counter values give different temporary names.
pub proof fn lemma_temp_names_distinct(i: nat, j: nat)
    requires
        i != j,
    ensures
        temp_name(i) != temp_name(j),
{
    crate::text::lemma_decimal_injective(i, j);
    if temp_name(i) == temp_name(j) {
        assert(temp_name(i).skip("t"@.len() as int) =~= decimal(i));
        assert(temp_name(j).skip("t"@.len() as int) =~= decimal(j));
    }
}

/// Different counter values give different label names.
pub proof fn lemma_label_names_distinct(i: nat, j: nat)
    requires
        i != j,
    ensures
        label_name(i) != label_name(j),
{
    crate::text::lemma_decimal_injective(i, j);
    if label_name(i) == label_name(j) {
        assert(label_name(i).skip("L"@.len() as int) =~= decimal(i));
        assert(label_name(j).skip("L"@.len() as int) =~= decimal(j));
    }
}

/// A temporary's name is never a label's name.
pub proof fn lemma_temp_not_label(i: nat, j: nat)
    ensures
        temp_name(i) != label_name(j),
{
    reveal_strlit("t");
    reveal_strlit("L");
    assert(temp_name(i)[0] == 't');
    assert(label_name(j)[0] == 'L');
}

/// A label is never the placeholder.
pub proof fn lemma_label_not_placeholder(n: nat)
    ensures
        label_name(n) != PLACEHOLDER@,
{
    reveal_strlit("L");
    reveal_strlit("_");
    assert(label_name(n)[0] == 'L');
}

/// The operations that transfer control to a label named in the result slot.
pub open spec fn is_jump_op(op: Seq<char>) -> bool {
    op == "GOTO"@ || op == "IF_FALSE"@ || op == "BREAK"@ || op == "CONTINUE"@
}

/// Operations that neither jump nor define a label.
pub open spec fn plain_op(op: Seq<char>) -> bool {
    !is_jump_op(op) && op != "LABEL"@
}

/// `q` holds the definition `(LABEL, l, _, _)`.
pub open spec fn label_defined(q: Seq<Quadruple>, l: Seq<char>) -> bool {
    exists|j: int| 0 <= j < q.len() && #[trigger] q[j]@ == ("LABEL"@, l, PLACEHOLDER@, PLACEHOLDER@)
}

/// Every jump of `q` whose target is not the placeholder goes to a label
/// that `q` defines or that is in `pending`.
pub open spec fn jumps_closed(q: Seq<Quadruple>, pending: Set<Seq<char>>) -> bool {
    forall|i: int|
        0 <= i < q.len() && is_jump_op(#[trigger] q[i]@.0) && q[i]@.3 != PLACEHOLDER@ ==> label_defined(q, q[i]@.3)
            || pending.contains(q[i]@.3)
}

/// Some jump of `q` has the placeholder as its target.
pub open spec fn has_placeholder_jump(q: Seq<Quadruple>) -> bool {
    exists|i: int| 0 <= i < q.len() && is_jump_op(#[trigger] q[i]@.0) && q[i]@.3 == PLACEHOLDER@
}

/// A label defined in `q` stays defined when `q` is extended.
pub proof fn lemma_label_defined_extend(q: Seq<Quadruple>, r: Seq<Quadruple>, l: Seq<char>)
    requires
        prefix_of(q, r),
        label_defined(q, l),
    ensures
        label_defined(r, l),
{
    let j = choose|j: int| 0 <= j < q.len() && #[trigger] q[j]@ == ("LABEL"@, l, PLACEHOLDER@, PLACEHOLDER@);
    assert(r[j] == q[j]);
}

/// Appending `x` keeps the jumps closed when `x` is not a jump, or jumps to a
/// defined or pending label or to the placeholder; and it adds a placeholder
/// jump only if `x` is one.
pub proof fn lemma_push_quad(q: Seq<Quadruple>, pending: Set<Seq<char>>, x: Quadruple)
    requires
        jumps_closed(q, pending),
        is_jump_op(x@.0) && x@.3 != PLACEHOLDER@ ==> label_defined(q.push(x), x@.3) || pending.contains(x@.3),
    ensures
        jumps_closed(q.push(x), pending),
        has_placeholder_jump(q.push(x)) ==> has_placeholder_jump(q) || (is_jump_op(x@.0) && x@.3 == PLACEHOLDER@),
        forall|l: Seq<char>| label_defined(q, l) ==> #[trigger] label_defined(q.push(x), l),
        x@.0 == "LABEL"@ && x@.2 == PLACEHOLDER@ && x@.3 == PLACEHOLDER@ ==> label_defined(q.push(x), x@.1),
{
    let r = q.push(x);
    assert(prefix_of(q, r));
    assert forall|l: Seq<char>| label_defined(q, l) implies #[trigger] label_defined(r, l) by {
        lemma_label_defined_extend(q, r, l);
    }
    assert forall|i: int|
        0 <= i < r.len() && is_jump_op(#[trigger] r[i]@.0) && r[i]@.3 != PLACEHOLDER@ implies label_defined(r, r[i]@.3)
            || pending.contains(r[i]@.3) by {
        if i < q.len() {
            assert(r[i] == q[i]);
        }
    }
    if has_placeholder_jump(r) {
        let i = choose|i: int| 0 <= i < r.len() && is_jump_op(#[trigger] r[i]@.0) && r[i]@.3 == PLACEHOLDER@;
        if i < q.len() {
            assert(r[i] == q[i]);
        }
    }
    if x@.0 == "LABEL"@ && x@.2 == PLACEHOLDER@ && x@.3 == PLACEHOLDER@ {
        assert(r[q.len() as int] == x);
    }
}

/// The texts of the operations that the analyzer emits besides jumps and
/// labels.
pub proof fn lemma_plain_ops()
    ensures
        plain_op("="@),
        plain_op("*="@),
        plain_op("[]="@),
        plain_op(".="@),
        plain_op("INDEX"@),
        plain_op("FIELD"@),
        plain_op("NEG"@),
        plain_op("DEREF"@),
        plain_op("PARAM"@),
        plain_op("CALL"@),
        plain_op("RETURN"@),
        plain_op("FUNC"@),
        plain_op("END_FUNC"@),
        plain_op("PARAM_DECL"@),
        plain_op("ARRAY"@),
        plain_op("TUPLE"@),
        plain_op("+"@),
        plain_op("-"@),
        plain_op("*"@),
        plain_op("/"@),
        plain_op("<"@),
        plain_op("<="@),
        plain_op(">"@),
        plain_op(">="@),
        plain_op("=="@),
        plain_op("!="@),
        plain_op(".."@),
        is_jump_op("GOTO"@),
        is_jump_op("IF_FALSE"@),
        is_jump_op("BREAK"@),
        is_jump_op("CONTINUE"@),
        !is_jump_op("LABEL"@),
{
    reveal_strlit("GOTO");
    reveal_strlit("IF_FALSE");
    reveal_strlit("BREAK");
    reveal_strlit("CONTINUE");
    reveal_strlit("LABEL");
    reveal_strlit("=");
    reveal_strlit("*=");
    reveal_strlit("[]=");
    reveal_strlit(".=");
    reveal_strlit("INDEX");
    reveal_strlit("FIELD");
    reveal_strlit("NEG");
    reveal_strlit("DEREF");
    reveal_strlit("PARAM");
    reveal_strlit("CALL");
    reveal_strlit("RETURN");
    reveal_strlit("FUNC");
    reveal_strlit("END_FUNC");
    reveal_strlit("PARAM_DECL");
    reveal_strlit("ARRAY");
    reveal_strlit("TUPLE");
    reveal_strlit("+");
    reveal_strlit("-");
    reveal_strlit("*");
    reveal_strlit("/");
    reveal_strlit("<");
    reveal_strlit("<=");
    reveal_strlit(">");
    reveal_strlit(">=");
    reveal_strlit("==");
    reveal_strlit("!=");
    reveal_strlit("..");
    assert("INDEX"@[0] != "BREAK"@[0] && "INDEX"@[0] != "LABEL"@[0]);
    assert("FIELD"@[0] != "BREAK"@[0] && "FIELD"@[0] != "LABEL"@[0]);
    assert("DEREF"@[0] != "BREAK"@[0] && "DEREF"@[0] != "LABEL"@[0]);
    assert("PARAM"@[0] != "BREAK"@[0] && "PARAM"@[0] != "LABEL"@[0]);
    assert("ARRAY"@[0] != "BREAK"@[0] && "ARRAY"@[0] != "LABEL"@[0]);
    assert("TUPLE"@[0] != "BREAK"@[0] && "TUPLE"@[0] != "LABEL"@[0]);
    assert("CALL"@[0] != "GOTO"@[0] && "FUNC"@[0] != "GOTO"@[0]);
    assert("END_FUNC"@[0] != "IF_FALSE"@[0] && "END_FUNC"@[0] != "CONTINUE"@[0]);
    assert("PARAM_DECL"@.len() != 8 && "PARAM_DECL"@.len() != 5 && "PARAM_DECL"@.len() != 4);
    assert("BREAK"@[0] != "LABEL"@[0]);
    assert("INDEX"@.len() != "IF_FALSE"@.len() && "INDEX"@ != "IF_FALSE"@);
    assert("CALL"@.len() != "CONTINUE"@.len() && "CALL"@ != "CONTINUE"@);
}

} // verus!
