//! Syntax trees of the macro language, the basic-instruction alphabet that
//! compilation produces, and the serialisation of basic instructions back to
//! plain Brainfuck text.
use vstd::prelude::*;

verus! {

broadcast use vstd::std_specs::vec::group_vec_axioms;

// ===== Ghost mirrors of the syntax tree =====
//
// The executable tree below holds `String` and `Vec` nodes; contracts speak of
// these ghost mirrors, built from `Seq`, so that equalities are structural.

/// Ghost mirror of a positioned node.
#[verifier::ext_equal]
pub struct WithPosV<V> {
    pub start: nat,
    pub end: nat,
    pub value: V,
}

/// Ghost mirror of a literal operand.
#[verifier::ext_equal]
pub enum SuperValueV {
    Integer(u32),
    String(Seq<char>),
    Literal(Seq<char>),
    SuperCall { callee: WithPosV<Seq<char>>, args: Seq<WithPosV<InstructionV>> },
}

/// Ghost mirror of a syntax-tree instruction.
#[verifier::ext_equal]
pub enum InstructionV {
    Add(i32),
    Move(i32),
    PutC,
    GetC,
    Loop { body: Seq<WithPosV<InstructionV>> },
    InlineValue(SuperValueV),
    SuperFunction {
        name: WithPosV<Seq<char>>,
        args: Seq<WithPosV<Seq<char>>>,
        body: Seq<WithPosV<InstructionV>>,
    },
}

// ===== The executable syntax tree =====

/// A literal operand to a call: an integer, a string, a bare identifier, or a
/// nested call used as a value.
#[derive(Debug)]
pub enum SuperValue {
    Integer(u32),
    String(String),
    Literal(String),
    SuperCall { callee: WithPos<String>, args: Vec<WithPos<Instruction>> },
}

/// One instruction of the macro language.
#[derive(Debug)]
pub enum Instruction {
    Add(i32),
    Move(i32),
    PutC,
    GetC,
    Loop { body: Vec<WithPos<Instruction>> },
    InlineValue(SuperValue),
    SuperFunction {
        name: WithPos<String>,
        args: Vec<WithPos<String>>,
        body: Vec<WithPos<Instruction>>,
    },
}

/// A value together with the byte range `[start, end)` of the source text it
/// came from; the range is used only for diagnostics.
#[derive(Debug)]
pub struct WithPos<T> {
    pub start: usize,
    pub end: usize,
    pub value: T,
}

// ===== Views from the executable tree to the ghost mirrors =====

pub open spec fn wp_str_view(w: WithPos<String>) -> WithPosV<Seq<char>> {
    WithPosV { start: w.start as nat, end: w.end as nat, value: w.value@ }
}

pub open spec fn params_view(p: Seq<WithPos<String>>) -> Seq<WithPosV<Seq<char>>> {
    Seq::new(p.len(), |i: int| wp_str_view(p[i]))
}

pub open spec fn sv_view(v: SuperValue) -> SuperValueV
    decreases v, 0int,
{
    match v {
        SuperValue::Integer(n) => SuperValueV::Integer(n),
        SuperValue::String(s) => SuperValueV::String(s@),
        SuperValue::Literal(s) => SuperValueV::Literal(s@),
        SuperValue::SuperCall { callee, args } => SuperValueV::SuperCall {
            callee: wp_str_view(callee),
            args: body_view(args@),
        },
    }
}

pub open spec fn instr_view(i: Instruction) -> InstructionV
    decreases i, 0int,
{
    match i {
        Instruction::Add(n) => InstructionV::Add(n),
        Instruction::Move(n) => InstructionV::Move(n),
        Instruction::PutC => InstructionV::PutC,
        Instruction::GetC => InstructionV::GetC,
        Instruction::Loop { body } => InstructionV::Loop { body: body_view(body@) },
        Instruction::InlineValue(v) => InstructionV::InlineValue(sv_view(v)),
        Instruction::SuperFunction { name, args, body } => InstructionV::SuperFunction {
            name: wp_str_view(name),
            args: params_view(args@),
            body: body_view(body@),
        },
    }
}

pub open spec fn wp_instr_view(w: WithPos<Instruction>) -> WithPosV<InstructionV>
    decreases w, 0int,
{
    WithPosV { start: w.start as nat, end: w.end as nat, value: instr_view(w.value) }
}

pub open spec fn body_view(b: Seq<WithPos<Instruction>>) -> Seq<WithPosV<InstructionV>>
    decreases b, 1int,
{
    if b.len() == 0 {
        Seq::empty()
    } else {
        body_view(b.drop_last()).push(wp_instr_view(b.last()))
    }
}

/// `body_view` maps the view over the sequence element by element.
pub proof fn lemma_body_view(b: Seq<WithPos<Instruction>>)
    ensures
        body_view(b).len() == b.len(),
        forall|i: int| 0 <= i < b.len() ==> body_view(b)[i] == wp_instr_view(b[i]),
    decreases b.len(),
{
    if b.len() > 0 {
        lemma_body_view(b.drop_last());
    }
}

// ===== Methods of the syntax tree =====

impl<T> WithPos<T> {
    /// Carry this node's source range over to another value.
    pub fn transfer<P>(&self, p: P) -> (r: WithPos<P>)
        ensures
            r.start == self.start,
            r.end == self.end,
            r.value == p,
    {
        WithPos { value: p, start: self.start, end: self.end }
    }
}

pub open spec fn spec_as_literal(i: InstructionV) -> Option<Seq<char>> {
    match i {
        InstructionV::InlineValue(SuperValueV::Literal(s)) => Some(s),
        _ => None,
    }
}

pub open spec fn spec_as_integer(i: InstructionV) -> Option<u32> {
    match i {
        InstructionV::InlineValue(SuperValueV::Integer(n)) => Some(n),
        _ => None,
    }
}

impl Instruction {
    /// The identifier, if this instruction is a bare identifier in instruction
    /// position.
    pub fn as_literal(&self) -> (r: Option<String>)
        ensures
            r.deep_view() == spec_as_literal(instr_view(*self)),
    {
        if let Instruction::InlineValue(v) = self {
            if let SuperValue::Literal(s) = v {
                return Some(s.clone());
            }
        }
        None
    }

    /// The integer, if this instruction is an integer literal in instruction
    /// position.
    pub fn as_integer(&self) -> (r: Option<u32>)
        ensures
            r == spec_as_integer(instr_view(*self)),
    {
        if let Instruction::InlineValue(v) = self {
            if let SuperValue::Integer(n) = v {
                return Some(*n);
            }
        }
        None
    }
}

// ===== Clone, with its effect stated over the views =====

impl Clone for WithPos<String> {
    fn clone(&self) -> (res: Self)
        ensures
            res == *self,
    {
        WithPos { start: self.start, end: self.end, value: self.value.clone() }
    }
}

/// A deep copy of an instruction sequence, with the same view.
pub(crate) fn clone_body(v: &Vec<WithPos<Instruction>>) -> (r: Vec<WithPos<Instruction>>)
    ensures
        body_view(r@) == body_view(v@),
    decreases v, 1int,
{
    let mut r: Vec<WithPos<Instruction>> = Vec::new();
    let mut i: usize = 0;
    while i < v.len()
        invariant
            i <= v@.len(),
            r@.len() == i,
            forall|j: int| 0 <= j < i ==> #[trigger] wp_instr_view(r@[j]) == wp_instr_view(v@[j]),
        decreases v@.len() - i,
    {
        r.push(v[i].clone());
        i = i + 1;
    }
    proof {
        lemma_body_view(v@);
        lemma_body_view(r@);
        assert(body_view(r@) =~= body_view(v@));
    }
    r
}

/// A deep copy of a parameter-name sequence, with the same view.
fn clone_params(v: &Vec<WithPos<String>>) -> (r: Vec<WithPos<String>>)
    ensures
        params_view(r@) == params_view(v@),
{
    let mut r: Vec<WithPos<String>> = Vec::new();
    let mut i: usize = 0;
    while i < v.len()
        invariant
            i <= v@.len(),
            r@.len() == i,
            forall|j: int| 0 <= j < i ==> r@[j] == v@[j],
        decreases v@.len() - i,
    {
        r.push(v[i].clone());
        i = i + 1;
    }
    proof {
        assert(params_view(r@) =~= params_view(v@));
    }
    r
}

impl Clone for SuperValue {
    fn clone(&self) -> (res: Self)
        ensures
            sv_view(res) == sv_view(*self),
        decreases self, 2int,
    {
        match self {
            SuperValue::Integer(n) => SuperValue::Integer(*n),
            SuperValue::String(s) => SuperValue::String(s.clone()),
            SuperValue::Literal(s) => SuperValue::Literal(s.clone()),
            SuperValue::SuperCall { callee, args } => {
                let r = SuperValue::SuperCall { callee: callee.clone(), args: clone_body(args) };
                proof {
                    assert(sv_view(r) =~= sv_view(*self));
                }
                r
            },
        }
    }
}

impl Clone for Instruction {
    fn clone(&self) -> (res: Self)
        ensures
            instr_view(res) == instr_view(*self),
        decreases self, 2int,
    {
        match self {
            Instruction::Add(n) => Instruction::Add(*n),
            Instruction::Move(n) => Instruction::Move(*n),
            Instruction::PutC => Instruction::PutC,
            Instruction::GetC => Instruction::GetC,
            Instruction::Loop { body } => {
                let r = Instruction::Loop { body: clone_body(body) };
                proof {
                    assert(instr_view(r) =~= instr_view(*self));
                }
                r
            },
            Instruction::InlineValue(v) => Instruction::InlineValue(v.clone()),
            Instruction::SuperFunction { name, args, body } => {
                let r = Instruction::SuperFunction {
                    name: name.clone(),
                    args: clone_params(args),
                    body: clone_body(body),
                };
                proof {
                    assert(instr_view(r) =~= instr_view(*self));
                }
                r
            },
        }
    }
}

impl Clone for WithPos<Instruction> {
    fn clone(&self) -> (res: Self)
        ensures
            wp_instr_view(res) == wp_instr_view(*self),
        decreases self, 3int,
    {
        let r = WithPos { start: self.start, end: self.end, value: self.value.clone() };
        proof {
            assert(wp_instr_view(r) =~= wp_instr_view(*self));
        }
        r
    }
}

// ===== Basic instructions: the output alphabet =====

/// One basic Brainfuck instruction, with repeat counts folded into `Add` and
/// `Move`.
#[derive(Debug, Clone, Copy, PartialEq, Eq, Structural)]
pub enum BInstr {
    Add(i32),
    Move(i32),
    LoopStart,
    LoopEnd,
    PutC,
    GetC,
}

pub open spec fn spec_is_basic(i: InstructionV) -> bool {
    match i {
        InstructionV::Add(_) => true,
        InstructionV::Move(_) => true,
        InstructionV::PutC => true,
        InstructionV::GetC => true,
        _ => false,
    }
}

pub open spec fn spec_from_basic(i: InstructionV) -> BInstr
    recommends
        spec_is_basic(i),
{
    match i {
        InstructionV::Add(n) => BInstr::Add(n),
        InstructionV::Move(n) => BInstr::Move(n),
        InstructionV::PutC => BInstr::PutC,
        _ => BInstr::GetC,
    }
}

impl BInstr {
    /// The basic instruction denoted by a basic syntax-tree node.
    pub fn from_basic(i: &Instruction) -> (r: BInstr)
        requires
            spec_is_basic(instr_view(*i)),
        ensures
            r == spec_from_basic(instr_view(*i)),
    {
        match i {
            Instruction::Add(n) => BInstr::Add(*n),
            Instruction::Move(n) => BInstr::Move(*n),
            Instruction::PutC => BInstr::PutC,
            Instruction::GetC => BInstr::GetC,
            _ => BInstr::PutC,  // unreachable under the precondition
        }
    }
}

// ===== Serialisation back to Brainfuck text =====

/// `n` copies of the character `c`.
pub open spec fn char_run(c: char, n: nat) -> Seq<char> {
    Seq::new(n, |i: int| c)
}

/// The magnitude of an `Add` or `Move` count.
pub open spec fn abs_of(n: i32) -> nat {
    if n >= 0 {
        n as nat
    } else {
        (-(n as int)) as nat
    }
}

/// The textual form of one basic instruction.
pub open spec fn spec_recon_one(b: BInstr) -> Seq<char> {
    match b {
        BInstr::Add(n) => char_run(if n >= 0 { '+' } else { '-' }, abs_of(n)),
        BInstr::Move(n) => char_run(if n >= 0 { '>' } else { '<' }, abs_of(n)),
        BInstr::LoopStart => seq!['['],
        BInstr::LoopEnd => seq![']'],
        BInstr::PutC => seq!['.'],
        BInstr::GetC => seq![','],
    }
}

/// The textual form of a basic-instruction program: each instruction's text in
/// order, with no separators.
pub open spec fn spec_recon(p: Seq<BInstr>) -> Seq<char>
    decreases p.len(),
{
    if p.len() == 0 {
        Seq::empty()
    } else {
        spec_recon_one(p[0]) + spec_recon(p.drop_first())
    }
}

/// Serialisation distributes over appending one instruction.
pub proof fn lemma_recon_push(p: Seq<BInstr>, b: BInstr)
    ensures
        spec_recon(p.push(b)) == spec_recon(p) + spec_recon_one(b),
    decreases p.len(),
{
    reveal_with_fuel(spec_recon, 3);
    if p.len() == 0 {
        assert(p.push(b).drop_first() =~= Seq::<BInstr>::empty());
        assert(p.push(b)[0] == b);
        assert(spec_recon(p.push(b)) =~= spec_recon(p) + spec_recon_one(b));
    } else {
        assert(p.push(b).drop_first() =~= p.drop_first().push(b));
        assert(p.push(b)[0] == p[0]);
        lemma_recon_push(p.drop_first(), b);
        assert(spec_recon(p.push(b)) =~= spec_recon(p) + spec_recon_one(b));
    }
}

/// Serialisation distributes over concatenation.
pub proof fn lemma_recon_app(a: Seq<BInstr>, b: Seq<BInstr>)
    ensures
        spec_recon(a + b) == spec_recon(a) + spec_recon(b),
    decreases b.len(),
{
    if b.len() == 0 {
        assert(a + b =~= a);
        assert(spec_recon(a + b) =~= spec_recon(a) + spec_recon(b));
    } else {
        lemma_recon_app(a, b.drop_last());
        lemma_recon_push(a + b.drop_last(), b.last());
        lemma_recon_push(b.drop_last(), b.last());
        assert((a + b.drop_last()).push(b.last()) =~= a + b);
        assert(b.drop_last().push(b.last()) =~= b);
        assert(spec_recon(a + b) =~= spec_recon(a) + spec_recon(b));
    }
}

/// Append `n` copies of the one-character string `unit` to `s`.
fn push_copies(s: &mut String, unit: &str, c: Ghost<char>, n: u32)
    requires
        unit@ == seq![c@],
    ensures
        final(s)@ == old(s)@ + char_run(c@, n as nat),
{
    let mut i: u32 = 0;
    while i < n
        invariant
            i <= n,
            unit@ == seq![c@],
            s@ == old(s)@ + char_run(c@, i as nat),
        decreases n - i,
    {
        s.append(unit);
        proof {
            assert(char_run(c@, (i + 1) as nat) =~= char_run(c@, i as nat) + seq![c@]);
            assert(s@ =~= old(s)@ + char_run(c@, (i + 1) as nat));
        }
        i = i + 1;
    }
}

/// Things whose exact textual form is given by a specification function.
pub trait Reconstruct {
    spec fn recon_view(&self) -> Seq<char>;

    fn reconstruct(&self) -> (r: String)
        ensures
            r@ == self.recon_view(),
    ;
}

impl Reconstruct for BInstr {
    open spec fn recon_view(&self) -> Seq<char> {
        spec_recon_one(*self)
    }

    fn reconstruct(&self) -> (r: String) {
        let mut s = String::new();
        proof {
            reveal_strlit("+");
            reveal_strlit("-");
            reveal_strlit(">");
            reveal_strlit("<");
            reveal_strlit("[");
            reveal_strlit("]");
            reveal_strlit(".");
            reveal_strlit(",");
            assert("+"@ =~= seq!['+']);
            assert("-"@ =~= seq!['-']);
            assert(">"@ =~= seq!['>']);
            assert("<"@ =~= seq!['<']);
            assert("["@ =~= seq!['[']);
            assert("]"@ =~= seq![']']);
            assert("."@ =~= seq!['.']);
            assert(","@ =~= seq![',']);
        }
        match self {
            BInstr::Add(n) => {
                if *n >= 0 {
                    push_copies(&mut s, "+", Ghost('+'), *n as u32);
                } else {
                    push_copies(&mut s, "-", Ghost('-'), (-(*n as i64)) as u32);
                }
            },
            BInstr::Move(n) => {
                if *n >= 0 {
                    push_copies(&mut s, ">", Ghost('>'), *n as u32);
                } else {
                    push_copies(&mut s, "<", Ghost('<'), (-(*n as i64)) as u32);
                }
            },
            BInstr::LoopStart => {
                s.append("[");
            },
            BInstr::LoopEnd => {
                s.append("]");
            },
            BInstr::PutC => {
                s.append(".");
            },
            BInstr::GetC => {
                s.append(",");
            },
        }
        proof {
            assert(s@ =~= spec_recon_one(*self));
        }
        s
    }
}

impl Reconstruct for Vec<BInstr> {
    open spec fn recon_view(&self) -> Seq<char> {
        spec_recon(self@)
    }

    fn reconstruct(&self) -> (r: String) {
        let mut s = String::new();
        let mut i: usize = 0;
        proof {
            assert(self@.take(0int) =~= Seq::<BInstr>::empty());
        }
        while i < self.len()
            invariant
                i <= self@.len(),
                s@ == spec_recon(self@.take(i as int)),
            decreases self@.len() - i,
        {
            let piece = self[i].reconstruct();
            s.append(piece.as_str());
            proof {
                lemma_recon_push(self@.take(i as int), self@[i as int]);
                assert(self@.take(i as int).push(self@[i as int]) =~= self@.take(i + 1int));
            }
            i = i + 1;
        }
        proof {
            assert(self@.take(self@.len() as int) =~= self@);
        }
        s
    }
}

} // verus!
