//! The macro expander: walks the syntax tree, resolves macros and variables
//! through nested lexical scopes, enforces non-recursion, and flattens
//! everything to a stream of basic instructions.
use crate::ast::BInstr;
use crate::ast::Instruction;
use crate::ast::InstructionV;
use crate::ast::SuperValue;
use crate::ast::SuperValueV;
use crate::ast::WithPos;
use crate::ast::WithPosV;
use crate::ast::body_view;
use crate::ast::clone_body;
use crate::ast::instr_view;
use crate::ast::lemma_body_view;
use crate::ast::params_view;
use crate::ast::spec_as_integer;
use crate::ast::spec_as_literal;
use crate::ast::wp_instr_view;
use crate::scopes::Named;
use crate::scopes::ScopedStack;
use crate::scopes::StackModel;
use crate::scopes::last_index_of;
use crate::scopes::lemma_last_index_of;
use crate::scopes::lemma_map_end_scope;
use crate::scopes::lemma_map_find;
use crate::scopes::lemma_map_new_scope;
use crate::scopes::lemma_map_push;
use crate::scopes::lemma_smv_extends_push;
use crate::scopes::lemma_smv_extends_refl;
use crate::scopes::lemma_smv_extends_trans;
use crate::scopes::lemma_smv_extends_wrap;
use crate::scopes::smv_extends;
use crate::scopes::lemma_wf_end_scope;
use crate::scopes::map_model;
use crate::scopes::sm_empty;
use crate::scopes::sm_end_scope;
use crate::scopes::sm_new_scope;
use crate::scopes::sm_wf;
use crate::scopes::smv_find;
use crate::scopes::smv_push;
use vstd::prelude::*;
use vstd::string::StrSliceExecFns;
use vstd::string::StringExecFns;

verus! {

broadcast use vstd::std_specs::vec::group_vec_axioms;

// ===== Errors =====

/// A compile error, carrying a message or name and the byte range of the
/// offending source text.
#[derive(Debug)]
pub enum CompileError {
    Invalid { message: String, start: usize, end: usize },
    UndeclaredFunction { name: String, start: usize, end: usize },
    UndeclaredSymbol { name: String, start: usize, end: usize },
}

/// Ghost mirror of a compile error.
#[verifier::ext_equal]
pub enum CompileErrorV {
    Invalid { message: Seq<char>, start: nat, end: nat },
    UndeclaredFunction { name: Seq<char>, start: nat, end: nat },
    UndeclaredSymbol { name: Seq<char>, start: nat, end: nat },
}

pub open spec fn err_view(e: CompileError) -> CompileErrorV {
    match e {
        CompileError::Invalid { message, start, end } => CompileErrorV::Invalid {
            message: message@,
            start: start as nat,
            end: end as nat,
        },
        CompileError::UndeclaredFunction { name, start, end } => CompileErrorV::UndeclaredFunction {
            name: name@,
            start: start as nat,
            end: end as nat,
        },
        CompileError::UndeclaredSymbol { name, start, end } => CompileErrorV::UndeclaredSymbol {
            name: name@,
            start: start as nat,
            end: end as nat,
        },
    }
}

/// The decimal digits of `n`, most significant first.
pub open spec fn dec_digits(n: nat) -> Seq<char>
    decreases n,
{
    if n < 10 {
        seq![dec_digit(n)]
    } else {
        dec_digits(n / 10).push(dec_digit(n % 10))
    }
}

pub open spec fn dec_digit(d: nat) -> char {
    if d == 0 {
        '0'
    } else if d == 1 {
        '1'
    } else if d == 2 {
        '2'
    } else if d == 3 {
        '3'
    } else if d == 4 {
        '4'
    } else if d == 5 {
        '5'
    } else if d == 6 {
        '6'
    } else if d == 7 {
        '7'
    } else if d == 8 {
        '8'
    } else {
        '9'
    }
}

/// The human-readable single line for an error: its message, or the
/// undeclared name in quotes, followed by the source byte range.
pub open spec fn err_text(e: CompileErrorV) -> Seq<char> {
    match e {
        CompileErrorV::Invalid { message, start, end } => message + " at "@ + dec_digits(start)
            + " .. "@ + dec_digits(end),
        CompileErrorV::UndeclaredFunction { name, start, end } => "Undeclared function \""@
            + name + "\" at "@ + dec_digits(start) + " .. "@ + dec_digits(end),
        CompileErrorV::UndeclaredSymbol { name, start, end } => "Undeclared symbol \""@ + name
            + "\" at "@ + dec_digits(start) + " .. "@ + dec_digits(end),
    }
}

/// Append one decimal digit to `s`.
fn push_digit(s: &mut String, d: u64)
    requires
        d < 10,
    ensures
        final(s)@ == old(s)@ + seq![dec_digit(d as nat)],
{
    proof {
        reveal_strlit("0");
        reveal_strlit("1");
        reveal_strlit("2");
        reveal_strlit("3");
        reveal_strlit("4");
        reveal_strlit("5");
        reveal_strlit("6");
        reveal_strlit("7");
        reveal_strlit("8");
        reveal_strlit("9");
    }
    if d == 0 {
        s.append("0");
    } else if d == 1 {
        s.append("1");
    } else if d == 2 {
        s.append("2");
    } else if d == 3 {
        s.append("3");
    } else if d == 4 {
        s.append("4");
    } else if d == 5 {
        s.append("5");
    } else if d == 6 {
        s.append("6");
    } else if d == 7 {
        s.append("7");
    } else if d == 8 {
        s.append("8");
    } else {
        s.append("9");
    }
    proof {
        assert(s@ =~= old(s)@ + seq![dec_digit(d as nat)]);
    }
}

/// Append `n` in decimal to `s`.
fn push_decimal(s: &mut String, n: u64)
    ensures
        final(s)@ == old(s)@ + dec_digits(n as nat),
    decreases n,
{
    if n < 10 {
        push_digit(s, n);
    } else {
        push_decimal(s, n / 10);
        push_digit(s, n % 10);
        proof {
            assert(s@ =~= old(s)@ + dec_digits(n as nat));
        }
    }
}

impl CompileError {
    /// The printable form of this error (see `err_text`).
    pub fn to_string(&self) -> (r: String)
        ensures
            r@ == err_text(err_view(*self)),
    {
        let mut s = String::new();
        match self {
            CompileError::Invalid { message, start, end } => {
                s.append(message.as_str());
                s.append(" at ");
                push_decimal(&mut s, *start as u64);
                s.append(" .. ");
                push_decimal(&mut s, *end as u64);
            },
            CompileError::UndeclaredFunction { name, start, end } => {
                s.append("Undeclared function \"");
                s.append(name.as_str());
                s.append("\" at ");
                push_decimal(&mut s, *start as u64);
                s.append(" .. ");
                push_decimal(&mut s, *end as u64);
            },
            CompileError::UndeclaredSymbol { name, start, end } => {
                s.append("Undeclared symbol \"");
                s.append(name.as_str());
                s.append("\" at ");
                push_decimal(&mut s, *start as u64);
                s.append(" .. ");
                push_decimal(&mut s, *end as u64);
            },
        }
        proof {
            assert(s@ =~= err_text(err_view(*self)));
        }
        s
    }
}

// ===== Symbol-table entries =====

/// A registered macro definition (or, in principle, any nameable node).
#[derive(Debug)]
pub struct SymbolInfo {
    pub of: WithPos<Instruction>,
}

/// A variable binding: a macro parameter name bound to the caller-supplied
/// argument node, not to its evaluation.
#[derive(Debug)]
pub struct VariableSet {
    pub name: WithPos<String>,
    pub value: WithPos<Instruction>,
}

/// A marker naming a macro that is currently being expanded.
#[derive(Debug)]
pub struct GenericSymbol {
    pub name: String,
}

/// The name of a nameable node view: a macro definition or a bare identifier.
pub open spec fn fname_of(f: WithPosV<InstructionV>) -> Seq<char> {
    match f.value {
        InstructionV::SuperFunction { name, .. } => name.value,
        InstructionV::InlineValue(SuperValueV::Literal(s)) => s,
        _ => Seq::empty(),
    }
}

pub open spec fn func_nameable(v: InstructionV) -> bool {
    match v {
        InstructionV::SuperFunction { .. } => true,
        InstructionV::InlineValue(SuperValueV::Literal(_)) => true,
        _ => false,
    }
}

impl Named for SymbolInfo {
    open spec fn wf_named(&self) -> bool {
        func_nameable(instr_view(self.of.value))
    }

    open spec fn name_spec(&self) -> Seq<char> {
        fname_of(wp_instr_view(self.of))
    }

    fn get_name(&self) -> (r: String) {
        match &self.of.value {
            Instruction::SuperFunction { name, .. } => name.value.clone(),
            Instruction::InlineValue(SuperValue::Literal(s)) => s.clone(),
            _ => String::new(),  // unreachable under `wf_named`
        }
    }
}

impl Clone for SymbolInfo {
    fn clone(&self) -> (res: Self)
        ensures
            wp_instr_view(res.of) == wp_instr_view(self.of),
    {
        SymbolInfo { of: self.of.clone() }
    }
}

impl Named for VariableSet {
    open spec fn wf_named(&self) -> bool {
        true
    }

    open spec fn name_spec(&self) -> Seq<char> {
        self.name.value@
    }

    fn get_name(&self) -> (r: String) {
        self.name.value.clone()
    }
}

impl Clone for VariableSet {
    fn clone(&self) -> (res: Self)
        ensures
            res.name == self.name,
            wp_instr_view(res.value) == wp_instr_view(self.value),
    {
        VariableSet { name: self.name.clone(), value: self.value.clone() }
    }
}

impl Named for GenericSymbol {
    open spec fn wf_named(&self) -> bool {
        true
    }

    open spec fn name_spec(&self) -> Seq<char> {
        self.name@
    }

    fn get_name(&self) -> (r: String) {
        self.name.clone()
    }
}

impl Clone for GenericSymbol {
    fn clone(&self) -> (res: Self)
        ensures
            res == *self,
    {
        GenericSymbol { name: self.name.clone() }
    }
}

// ===== The ghost context =====

/// Ghost mirror of a variable binding.
#[verifier::ext_equal]
pub struct VarV {
    pub name: Seq<char>,
    pub value: WithPosV<InstructionV>,
}

/// Ghost mirror of the whole expansion context: three scoped stacks that move
/// in lockstep, and the output emitted so far.
#[verifier::ext_equal]
pub struct CtxV {
    pub funcs: StackModel<WithPosV<InstructionV>>,
    pub vars: StackModel<VarV>,
    pub calls: StackModel<Seq<char>>,
    pub output: Seq<BInstr>,
}

pub open spec fn sym_viewfn() -> spec_fn(SymbolInfo) -> WithPosV<InstructionV> {
    |s: SymbolInfo| wp_instr_view(s.of)
}

pub open spec fn var_viewfn() -> spec_fn(VariableSet) -> VarV {
    |s: VariableSet| VarV { name: s.name.value@, value: wp_instr_view(s.value) }
}

pub open spec fn call_viewfn() -> spec_fn(GenericSymbol) -> Seq<char> {
    |s: GenericSymbol| s.name@
}

pub open spec fn var_name() -> spec_fn(VarV) -> Seq<char> {
    |v: VarV| v.name
}

pub open spec fn call_name() -> spec_fn(Seq<char>) -> Seq<char> {
    |n: Seq<char>| n
}

pub open spec fn ctx_empty() -> CtxV {
    CtxV {
        funcs: sm_empty(),
        vars: sm_empty(),
        calls: sm_empty(),
        output: Seq::empty(),
    }
}

pub open spec fn ctx_new_scope(c: CtxV) -> CtxV {
    CtxV {
        funcs: sm_new_scope(c.funcs),
        vars: sm_new_scope(c.vars),
        calls: sm_new_scope(c.calls),
        output: c.output,
    }
}

pub open spec fn ctx_end_scope(c: CtxV) -> CtxV {
    CtxV {
        funcs: sm_end_scope(c.funcs),
        vars: sm_end_scope(c.vars),
        calls: sm_end_scope(c.calls),
        output: c.output,
    }
}

pub open spec fn ctx_push_func(c: CtxV, f: WithPosV<InstructionV>) -> CtxV {
    CtxV { funcs: smv_push(c.funcs, f, fname_of(f)), ..c }
}

pub open spec fn ctx_push_var(c: CtxV, name: Seq<char>, value: WithPosV<InstructionV>) -> CtxV {
    CtxV { vars: smv_push(c.vars, VarV { name, value }, name), ..c }
}

pub open spec fn ctx_push_call(c: CtxV, name: Seq<char>) -> CtxV {
    CtxV { calls: smv_push(c.calls, name, name), ..c }
}

pub open spec fn ctx_emit(c: CtxV, b: BInstr) -> CtxV {
    CtxV { output: c.output.push(b), ..c }
}

pub open spec fn ctx_emit_seq(c: CtxV, bs: Seq<BInstr>) -> CtxV {
    CtxV { output: c.output + bs, ..c }
}

/// Scope frames a context must hold before a symbol can be pushed: the stacks
/// move in lockstep, so one count serves all three.
pub open spec fn ctx_open(c: CtxV) -> bool {
    &&& c.funcs.frames.len() > 0
    &&& c.vars.frames.len() > 0
    &&& c.calls.frames.len() > 0
}

// ===== Variable resolution =====

/// Follow a chain of bindings: look `key` up; if it is bound to another bare
/// identifier, continue with that identifier.  The chain stops at the first
/// non-identifier binding or unbound name; `fuel` guards against cycles, on
/// which the last resolved binding is kept.
pub open spec fn spec_resolve(
    vars: Seq<VarV>,
    key: Seq<char>,
    found: Option<WithPosV<InstructionV>>,
    fuel: nat,
) -> Option<WithPosV<InstructionV>>
    decreases fuel,
{
    if fuel == 0 {
        found
    } else {
        match smv_find(vars, var_name(), key) {
            Some(i) => {
                let value = vars[i].value;
                match spec_as_literal(value.value) {
                    Some(k2) => spec_resolve(vars, k2, Some(value), (fuel - 1) as nat),
                    None => Some(value),
                }
            },
            None => found,
        }
    }
}

/// The fuel that the executable resolver uses: one step more than there are
/// bindings, enough to reach a repeated key on any cyclic chain.
pub open spec fn resolve_fuel(n: nat) -> nat {
    n + 1
}

// ===== The executable context =====

/// The expansion context: the three scoped stacks and the growing output.
#[derive(Debug)]
pub struct Context {
    func_scope: ScopedStack<SymbolInfo>,
    variable_scope: ScopedStack<VariableSet>,
    fncall_stack: ScopedStack<GenericSymbol>,
    output: Vec<BInstr>,
}

impl View for Context {
    type V = CtxV;

    closed spec fn view(&self) -> CtxV {
        CtxV {
            funcs: map_model(self.func_scope.model(), sym_viewfn()),
            vars: map_model(self.variable_scope.model(), var_viewfn()),
            calls: map_model(self.fncall_stack.model(), call_viewfn()),
            output: self.output@,
        }
    }
}

impl Context {
    pub open spec fn wf(&self) -> bool {
        &&& sm_wf(self.funcs_model())
        &&& sm_wf(self.vars_model())
        &&& sm_wf(self.calls_model())
    }

    pub closed spec fn funcs_model(&self) -> StackModel<SymbolInfo> {
        self.func_scope.model()
    }

    pub closed spec fn vars_model(&self) -> StackModel<VariableSet> {
        self.variable_scope.model()
    }

    pub closed spec fn calls_model(&self) -> StackModel<GenericSymbol> {
        self.fncall_stack.model()
    }

    /// Create a fresh, empty context.
    pub fn create() -> (r: Self)
        ensures
            r@ == ctx_empty(),
            r.wf(),
    {
        let r = Self {
            func_scope: ScopedStack::new(),
            variable_scope: ScopedStack::new(),
            fncall_stack: ScopedStack::new(),
            output: Vec::new(),
        };
        proof {
            assert(r@.funcs.symbols =~= ctx_empty().funcs.symbols);
            assert(r@.funcs =~= ctx_empty().funcs);
            assert(r@.vars.symbols =~= ctx_empty().vars.symbols);
            assert(r@.vars =~= ctx_empty().vars);
            assert(r@.calls.symbols =~= ctx_empty().calls.symbols);
            assert(r@.calls =~= ctx_empty().calls);
            assert(r@ =~= ctx_empty());
        }
        r
    }

    /// Register a macro definition in the innermost open scope.
    pub fn push_func(&mut self, func: WithPos<Instruction>)
        requires
            old(self).wf(),
            ctx_open(old(self)@),
            func_nameable(instr_view(func.value)),
        ensures
            final(self)@ == ctx_push_func(old(self)@, wp_instr_view(func)),
            final(self).wf(),
    {
        let ghost m = self.func_scope.model();
        let ghost sym = SymbolInfo { of: func };
        proof {
            assert(sym.wf_named());
        }
        self.func_scope.push(SymbolInfo { of: func });
        proof {
            lemma_map_push(m, sym_viewfn(), sym);
            assert(self@ =~= ctx_push_func(old(self)@, wp_instr_view(func)));
        }
    }

    /// Bind a parameter name to an argument node in the innermost open scope.
    pub fn push_variable(&mut self, name: WithPos<String>, value: WithPos<Instruction>)
        requires
            old(self).wf(),
            ctx_open(old(self)@),
        ensures
            final(self)@ == ctx_push_var(old(self)@, name.value@, wp_instr_view(value)),
            final(self).wf(),
    {
        let ghost m = self.variable_scope.model();
        let ghost sym = VariableSet { name, value };
        self.variable_scope.push(VariableSet { name, value });
        proof {
            lemma_map_push(m, var_viewfn(), sym);
            assert(self@ =~= ctx_push_var(old(self)@, name.value@, wp_instr_view(value)));
        }
    }

    /// Mark a macro name as currently being expanded.
    pub fn push_fncall(&mut self, callee: String)
        requires
            old(self).wf(),
            ctx_open(old(self)@),
        ensures
            final(self)@ == ctx_push_call(old(self)@, callee@),
            final(self).wf(),
    {
        let ghost m = self.fncall_stack.model();
        let ghost sym = GenericSymbol { name: callee };
        self.fncall_stack.push(GenericSymbol { name: callee });
        proof {
            lemma_map_push(m, call_viewfn(), sym);
            assert(self@ =~= ctx_push_call(old(self)@, callee@));
        }
    }

    /// Open one scope on all three stacks, so they stay in lockstep.
    pub fn new_scope(&mut self)
        requires
            old(self).wf(),
        ensures
            final(self)@ == ctx_new_scope(old(self)@),
            final(self).wf(),
    {
        let ghost mf = self.func_scope.model();
        let ghost mv = self.variable_scope.model();
        let ghost mc = self.fncall_stack.model();
        self.func_scope.new_scope();
        self.variable_scope.new_scope();
        self.fncall_stack.new_scope();
        proof {
            lemma_map_new_scope(mf, sym_viewfn());
            lemma_map_new_scope(mv, var_viewfn());
            lemma_map_new_scope(mc, call_viewfn());
            assert(self@ =~= ctx_new_scope(old(self)@));
        }
    }

    /// Close the innermost scope on all three stacks.
    pub fn end_scope(&mut self)
        requires
            old(self).wf(),
            ctx_open(old(self)@),
        ensures
            final(self)@ == ctx_end_scope(old(self)@),
            final(self).wf(),
    {
        let ghost mf = self.func_scope.model();
        let ghost mv = self.variable_scope.model();
        let ghost mc = self.fncall_stack.model();
        proof {
            lemma_wf_end_scope(mf);
            lemma_wf_end_scope(mv);
            lemma_wf_end_scope(mc);
        }
        self.func_scope.end_scope();
        self.variable_scope.end_scope();
        self.fncall_stack.end_scope();
        proof {
            lemma_map_end_scope(mf, sym_viewfn());
            lemma_map_end_scope(mv, var_viewfn());
            lemma_map_end_scope(mc, call_viewfn());
            assert(self@ =~= ctx_end_scope(old(self)@));
        }
    }

    /// Whether `name` is on the call-site marker stack.
    pub(crate) fn find_fncall(&self, name: &str) -> (r: bool)
        requires
            self.wf(),
        ensures
            r == (smv_find(self@.calls.symbols, call_name(), name@) is Some),
    {
        proof {
            lemma_map_find(self.fncall_stack.model().symbols, call_viewfn(), call_name(), name@);
        }
        self.fncall_stack.find_rvisiblle(name).is_some()
    }

    /// Look a macro name up in the function scope; a hit is a copy of the
    /// rightmost visible entry.
    pub(crate) fn find_func(&self, name: &str) -> (r: Option<SymbolInfo>)
        requires
            self.wf(),
        ensures
            match r {
                Some(s) => {
                    &&& smv_find(self@.funcs.symbols, func_name(), name@) matches Some(i)
                    &&& wp_instr_view(s.of) == self@.funcs.symbols[smv_find(
                        self@.funcs.symbols,
                        func_name(),
                        name@,
                    )->Some_0]
                },
                None => smv_find(self@.funcs.symbols, func_name(), name@) is None,
            },
    {
        proof {
            lemma_map_find(self.func_scope.model().symbols, sym_viewfn(), func_name(), name@);
            lemma_last_index_of(self.func_scope.model().symbols, name@);
        }
        match self.func_scope.find_rvisiblle(name) {
            Some(s) => {
                proof {
                    let i = last_index_of(self.func_scope.model().symbols, name@)->Some_0;
                    lemma_cloned_sym(self.func_scope.model().symbols[i], s);
                }
                Some(s)
            },
            None => None,
        }
    }

    /// Resolve a variable through the binding chain (see `spec_resolve`).
    pub fn resolve_variable_rec(&mut self, name: &str) -> (r: Option<WithPos<Instruction>>)
        requires
            old(self).wf(),
        ensures
            *final(self) == *old(self),
            match r {
                Some(v) => spec_resolve(
                    old(self)@.vars.symbols,
                    name@,
                    None,
                    resolve_fuel(old(self)@.vars.symbols.len()),
                ) == Some(wp_instr_view(v)),
                None => spec_resolve(
                    old(self)@.vars.symbols,
                    name@,
                    None,
                    resolve_fuel(old(self)@.vars.symbols.len()),
                ) is None,
            },
    {
        let ghost varsv = self@.vars.symbols;
        let count: usize = self.variable_scope.symbol_count();
        let mut key: String = name.to_owned();
        let ghost mut foundv: Option<WithPosV<InstructionV>> = None;
        let mut found: Option<WithPos<Instruction>> = None;
        let mut steps: u128 = 0;
        proof {
            assert(resolve_fuel(varsv.len()) - steps == resolve_fuel(varsv.len()));
        }
        while steps <= count as u128
            invariant
                self.wf(),
                *self == *old(self),
                varsv == self@.vars.symbols,
                count == varsv.len(),
                steps <= count + 1,
                match found {
                    Some(v) => foundv == Some(wp_instr_view(v)),
                    None => foundv is None,
                },
                spec_resolve(varsv, name@, None, resolve_fuel(varsv.len())) == spec_resolve(
                    varsv,
                    key@,
                    foundv,
                    (resolve_fuel(varsv.len()) - steps) as nat,
                ),
            decreases count + 1 - steps,
        {
            let ghost fuel_left = (resolve_fuel(varsv.len()) - steps) as nat;
            proof {
                assert(fuel_left > 0);
                lemma_find_vars(self.vars_model(), key@);
            }
            match self.variable_scope.find_rvisiblle(key.as_str()) {
                Some(var) => {
                    proof {
                        let i = last_index_of(self.vars_model().symbols, key@);
                        lemma_last_index_of(self.vars_model().symbols, key@);
                        assert(smv_find(varsv, var_name(), key@) == Some(i->Some_0));
                        assert(varsv[i->Some_0] == var_viewfn()(
                            self.vars_model().symbols[i->Some_0],
                        ));
                        lemma_cloned_var(self.vars_model().symbols[i->Some_0], var);
                    }
                    let lit = var.value.value.as_literal();
                    let ghost vv = wp_instr_view(var.value);
                    match lit {
                        Some(k2) => {
                            proof {
                                foundv = Some(vv);
                            }
                            found = Some(var.value);
                            key = k2;
                        },
                        None => {
                            proof {
                                assert(spec_resolve(varsv, key@, foundv, fuel_left) == Some(vv));
                            }
                            return Some(var.value);
                        },
                    }
                },
                None => {
                    proof {
                        assert(spec_resolve(varsv, key@, foundv, fuel_left) == foundv);
                    }
                    return found;
                },
            }
            steps = steps + 1;
        }
        proof {
            assert((resolve_fuel(varsv.len()) - steps) as nat == 0);
        }
        found
    }
}

/// The executable lookup in the variable stack agrees with the ghost lookup
/// over the stack's view.
proof fn lemma_find_vars(m: StackModel<VariableSet>, name: Seq<char>)
    ensures
        smv_find(map_model(m, var_viewfn()).symbols, var_name(), name) == last_index_of(
            m.symbols,
            name,
        ),
{
    lemma_map_find(m.symbols, var_viewfn(), var_name(), name);
}

/// A clone handed out by the variable stack has the view of the stored entry.
proof fn lemma_cloned_var(a: VariableSet, b: VariableSet)
    requires
        cloned::<VariableSet>(a, b),
    ensures
        b.name.value@ == a.name.value@,
        wp_instr_view(b.value) == wp_instr_view(a.value),
{
}

/// A clone handed out by the function stack has the view of the stored entry.
proof fn lemma_cloned_sym(a: SymbolInfo, b: SymbolInfo)
    requires
        cloned::<SymbolInfo>(a, b),
    ensures
        wp_instr_view(b.of) == wp_instr_view(a.of),
{
}

// ===== The ghost expander =====
//
// These functions define, step for step, what expansion does; the executable
// emitter's contracts state that it computes exactly this.

/// A failed expansion: the error, and the context exactly as it stood when
/// expansion stopped.  The expander aborts on the first error, so the output
/// in `ctx` is what had been emitted up to that point and is never handed
/// out: `finalize` is only meaningful after a successful `compile`.
#[verifier::ext_equal]
pub struct AbortV {
    pub ctx: CtxV,
    pub err: CompileErrorV,
}

pub type EmitResult = Result<CtxV, AbortV>;

pub open spec fn depth_msg() -> Seq<char> {
    "expansion depth budget exceeded"@
}

pub open spec fn repeat_msg() -> Seq<char> {
    "First argument of repeat function R is expected to be an integer"@
}

/// The message of the recursion error: the macro name in quotes.
pub open spec fn recursive_msg(name: Seq<char>) -> Seq<char> {
    "\""@ + name + "\" cannot be recursive"@
}

pub open spec fn depth_abort(c: CtxV, start: nat, end: nat) -> AbortV {
    AbortV { ctx: c, err: CompileErrorV::Invalid { message: depth_msg(), start, end } }
}

pub open spec fn func_name() -> spec_fn(WithPosV<InstructionV>) -> Seq<char> {
    |f: WithPosV<InstructionV>| fname_of(f)
}

/// The low byte of a character, as an `Add` count.
pub open spec fn char_add(c: char) -> i32 {
    (c as i32) & 0xff
}

/// What a string literal emits from position `i` on: one `Add` per character,
/// a single `Move(1)` between successive characters, nothing at the ends.
pub open spec fn spec_string_from(s: Seq<char>, i: int) -> Seq<BInstr>
    decreases s.len() - i,
{
    if i < 0 || i >= s.len() {
        Seq::empty()
    } else if i == s.len() - 1 {
        seq![BInstr::Add(char_add(s[i]))]
    } else {
        seq![BInstr::Add(char_add(s[i])), BInstr::Move(1)] + spec_string_from(s, i + 1)
    }
}

pub open spec fn spec_string_out(s: Seq<char>) -> Seq<BInstr> {
    spec_string_from(s, 0)
}

/// Bind each parameter to the matching argument, left to right; a length
/// mismatch is tolerated: extra parameters stay unbound, extra arguments are
/// dropped.
pub open spec fn spec_push_params(
    c: CtxV,
    params: Seq<WithPosV<Seq<char>>>,
    args: Seq<WithPosV<InstructionV>>,
) -> CtxV
    decreases params.len(),
{
    if params.len() == 0 || args.len() == 0 {
        c
    } else {
        spec_push_params(
            ctx_push_var(c, params[0].value, args[0]),
            params.drop_first(),
            args.drop_first(),
        )
    }
}

/// Expansion of one instruction node.
pub open spec fn spec_emit_instr(c: CtxV, i: WithPosV<InstructionV>, fuel: nat) -> EmitResult
    decreases fuel, 0nat, 0nat,
{
    if fuel == 0 {
        Err(depth_abort(c, i.start, i.end))
    } else {
        match i.value {
            InstructionV::Add(n) => Ok(ctx_emit(c, BInstr::Add(n))),
            InstructionV::Move(n) => Ok(ctx_emit(c, BInstr::Move(n))),
            InstructionV::PutC => Ok(ctx_emit(c, BInstr::PutC)),
            InstructionV::GetC => Ok(ctx_emit(c, BInstr::GetC)),
            InstructionV::Loop { body } => spec_emit_loop(c, body, (fuel - 1) as nat),
            InstructionV::InlineValue(v) => spec_emit_super_value(
                c,
                WithPosV { start: i.start, end: i.end, value: v },
                (fuel - 1) as nat,
            ),
            InstructionV::SuperFunction { .. } => Ok(ctx_push_func(c, i)),
        }
    }
}

/// Expansion of a loop: `LoopStart`, the body, `LoopEnd`.
pub open spec fn spec_emit_loop(
    c: CtxV,
    body: Seq<WithPosV<InstructionV>>,
    fuel: nat,
) -> EmitResult
    decreases fuel, 2nat, 0nat,
{
    let c1 = ctx_emit(c, BInstr::LoopStart);
    match spec_emit_body(c1, body, fuel) {
        Ok(c2) => Ok(ctx_emit(c2, BInstr::LoopEnd)),
        Err(e) => Err(e),
    }
}

/// Expansion of an instruction sequence, in order, aborting on the first
/// error.
pub open spec fn spec_emit_body(
    c: CtxV,
    body: Seq<WithPosV<InstructionV>>,
    fuel: nat,
) -> EmitResult
    decreases fuel, 1nat, body.len(),
{
    if body.len() == 0 {
        Ok(c)
    } else if fuel == 0 {
        Err(depth_abort(c, body[0].start, body[0].end))
    } else {
        match spec_emit_instr(c, body[0], (fuel - 1) as nat) {
            Ok(c2) => spec_emit_body(c2, body.drop_first(), fuel),
            Err(e) => Err(e),
        }
    }
}

/// Expansion of the repeated fragment, `k` times over.
pub open spec fn spec_repeat(c: CtxV, t: WithPosV<InstructionV>, k: nat, fuel: nat) -> EmitResult
    decreases fuel, 2nat, k,
{
    if k == 0 {
        Ok(c)
    } else if fuel == 0 {
        Err(depth_abort(c, t.start, t.end))
    } else {
        match spec_emit_instr(c, t, (fuel - 1) as nat) {
            Ok(c2) => spec_repeat(c2, t, (k - 1) as nat, fuel),
            Err(e) => Err(e),
        }
    }
}

/// The built-in repeat: `__count` must resolve, through the binding chain, to
/// an integer literal; the fragment `t` is then expanded that many times.
/// When the chain does not end in an integer, the error points at the count
/// argument `cnt`, the offending operand.
pub open spec fn spec_emit_native_repeat(
    c: CtxV,
    cnt: WithPosV<InstructionV>,
    t: WithPosV<InstructionV>,
    fuel: nat,
) -> EmitResult
    decreases fuel, 3nat, 0nat,
{
    if fuel == 0 {
        Err(depth_abort(c, t.start, t.end))
    } else {
        let count = match spec_resolve(
            c.vars.symbols,
            "__count"@,
            None,
            resolve_fuel(c.vars.symbols.len()),
        ) {
            Some(v) => spec_as_integer(v.value),
            None => None,
        };
        match count {
            Some(k) => spec_repeat(c, t, k as nat, fuel),
            None => Err(
                AbortV {
                    ctx: c,
                    err: CompileErrorV::Invalid {
                        message: repeat_msg(),
                        start: cnt.start,
                        end: cnt.end,
                    },
                },
            ),
        }
    }
}

/// Expansion of a literal operand: the four kinds of `InlineValue`.
pub open spec fn spec_emit_super_value(
    c: CtxV,
    sv: WithPosV<SuperValueV>,
    fuel: nat,
) -> EmitResult
    decreases fuel, 4nat, 0nat,
{
    if fuel == 0 {
        Err(depth_abort(c, sv.start, sv.end))
    } else {
        match sv.value {
            SuperValueV::Integer(n) => Ok(ctx_emit(c, BInstr::Add(n as i32))),
            SuperValueV::String(s) => Ok(ctx_emit_seq(c, spec_string_out(s))),
            SuperValueV::Literal(lit) => {
                match spec_resolve(
                    c.vars.symbols,
                    lit,
                    None,
                    resolve_fuel(c.vars.symbols.len()),
                ) {
                    Some(var) => spec_emit_instr(c, var, (fuel - 1) as nat),
                    None => Err(
                        AbortV {
                            ctx: c,
                            err: CompileErrorV::UndeclaredSymbol {
                                name: lit,
                                start: sv.start,
                                end: sv.end,
                            },
                        },
                    ),
                }
            },
            SuperValueV::SuperCall { callee, args } => {
                if callee.value == "R"@ && args.len() == 2 {
                    let c2 = ctx_push_var(ctx_new_scope(c), "__count"@, args[0]);
                    match spec_emit_native_repeat(c2, args[0], args[1], (fuel - 1) as nat) {
                        Ok(c3) => Ok(ctx_end_scope(c3)),
                        Err(e) => Err(e),
                    }
                } else if smv_find(c.calls.symbols, call_name(), callee.value) is Some {
                    Err(
                        AbortV {
                            ctx: c,
                            err: CompileErrorV::Invalid {
                                message: recursive_msg(callee.value),
                                start: callee.start,
                                end: callee.end,
                            },
                        },
                    )
                } else {
                    match smv_find(c.funcs.symbols, func_name(), callee.value) {
                        Some(i) => match c.funcs.symbols[i].value {
                            InstructionV::SuperFunction { args: params, body, .. } => {
                                let c2 = spec_push_params(ctx_new_scope(c), params, args);
                                let c3 = ctx_push_call(ctx_new_scope(c2), callee.value);
                                match spec_emit_body(c3, body, (fuel - 1) as nat) {
                                    Ok(c4) => Ok(ctx_end_scope(ctx_end_scope(c4))),
                                    Err(e) => Err(e),
                                }
                            },
                            _ => Err(
                                AbortV {
                                    ctx: c,
                                    err: CompileErrorV::UndeclaredFunction {
                                        name: callee.value,
                                        start: callee.start,
                                        end: callee.end,
                                    },
                                },
                            ),
                        },
                        None => Err(
                            AbortV {
                                ctx: c,
                                err: CompileErrorV::UndeclaredFunction {
                                    name: callee.value,
                                    start: callee.start,
                                    end: callee.end,
                                },
                            },
                        ),
                    }
                }
            },
        }
    }
}

/// Whole-program expansion: one open root scope around the program body.
pub open spec fn spec_compile(c: CtxV, prog: Seq<WithPosV<InstructionV>>, fuel: nat) -> EmitResult {
    match spec_emit_body(ctx_new_scope(c), prog, fuel) {
        Ok(c2) => Ok(ctx_end_scope(c2)),
        Err(e) => Err(e),
    }
}

pub open spec fn abort_of(c: CtxV, e: CompileErrorV) -> AbortV {
    AbortV { ctx: c, err: e }
}

proof fn lemma_prefix_refl(s: Seq<BInstr>)
    ensures
        s.is_prefix_of(s),
{
    assert(s =~= s.subrange(0, s.len() as int));
}

proof fn lemma_prefix_trans(a: Seq<BInstr>, b: Seq<BInstr>, c: Seq<BInstr>)
    requires
        a.is_prefix_of(b),
        b.is_prefix_of(c),
    ensures
        a.is_prefix_of(c),
{
    assert(a =~= c.subrange(0, a.len() as int));
}

/// The two contexts hold the same number of open scopes.
pub open spec fn same_frames(a: CtxV, b: CtxV) -> bool {
    &&& b.funcs.frames.len() == a.funcs.frames.len()
    &&& b.vars.frames.len() == a.vars.frames.len()
    &&& b.calls.frames.len() == a.calls.frames.len()
}

// ===== The executable emitter =====

/// The expansion depth budget: nesting deeper than this is rejected rather
/// than relied on to exhaust the host stack.
pub const EXPANSION_DEPTH_BUDGET: u64 = 0xFFFF_FFFF;

/// The macro expander: owns the context and the program to expand.
pub struct WBFEmitter {
    pub context: Context,
    pub program: Vec<WithPos<Instruction>>,
}

impl WBFEmitter {
    pub open spec fn ctx(&self) -> CtxV {
        self.context@
    }

    pub open spec fn wf(&self) -> bool {
        self.context.wf()
    }

    pub fn new(program: Vec<WithPos<Instruction>>) -> (r: Self)
        ensures
            r.ctx() == ctx_empty(),
            r.wf(),
            r.program == program,
    {
        Self { context: Context::create(), program }
    }

    /// Hand out the emitted basic-instruction stream.
    pub fn finalize(self) -> (r: Result<Vec<BInstr>, String>)
        ensures
            r matches Ok(v) && v@ == self.ctx().output,
    {
        Ok(self.context.output)
    }

    /// Append one basic instruction to the output.
    pub fn emit_inline(&mut self, s: BInstr) -> (r: Result<(), CompileError>)
        requires
            old(self).wf(),
        ensures
            final(self).wf(),
            final(self).program == old(self).program,
            final(self).ctx() == ctx_emit(old(self).ctx(), s),
            old(self).ctx().output.is_prefix_of(final(self).ctx().output),
            r is Ok,
    {
        self.context.output.push(s);
        proof {
            assert(self.ctx() =~= ctx_emit(old(self).ctx(), s));
            assert(old(self).ctx().output =~= self.ctx().output.subrange(
                0,
                old(self).ctx().output.len() as int,
            ));
        }
        Ok(())
    }

    /// Append a sequence of basic instructions to the output.
    #[verifier::loop_isolation(false)]
    pub fn emit_inline_seq(&mut self, ss: Vec<BInstr>) -> (r: Result<(), CompileError>)
        requires
            old(self).wf(),
        ensures
            final(self).wf(),
            final(self).program == old(self).program,
            final(self).ctx() == ctx_emit_seq(old(self).ctx(), ss@),
            old(self).ctx().output.is_prefix_of(final(self).ctx().output),
            r is Ok,
    {
        let mut i: usize = 0;
        while i < ss.len()
            invariant
                i <= ss@.len(),
                self.wf(),
                self.program == old(self).program,
                self.ctx() == ctx_emit_seq(old(self).ctx(), ss@.take(i as int)),
            decreases ss@.len() - i,
        {
            proof {
                assert(old(self).ctx().output + ss@.take(i as int) == self.ctx().output);
            }
            self.context.output.push(ss[i]);
            proof {
                assert(ss@.take(i as int).push(ss@[i as int]) =~= ss@.take(i + 1int));
                assert(old(self).ctx().output + ss@.take(i + 1int) =~= (old(
                    self,
                ).ctx().output + ss@.take(i as int)).push(ss@[i as int]));
                assert(self.ctx() =~= ctx_emit_seq(old(self).ctx(), ss@.take(i + 1int)));
            }
            i = i + 1;
        }
        proof {
            assert(ss@.take(ss@.len() as int) =~= ss@);
            assert(old(self).ctx().output =~= self.ctx().output.subrange(
                0,
                old(self).ctx().output.len() as int,
            ));
        }
        Ok(())
    }

    /// Expand the built-in repeat `R`: resolve `__count` and expand the
    /// fragment that many times.  `count` is the count argument itself,
    /// whose source range the non-integer error points at.
    #[verifier::loop_isolation(false)]
    pub fn emit_native_repeat(
        &mut self,
        count: &WithPos<Instruction>,
        to_repeat: &WithPos<Instruction>,
        fuel: u64,
    ) -> (r: Result<bool, CompileError>)
        requires
            old(self).wf(),
            ctx_open(old(self).ctx()),
        ensures
            final(self).wf(),
            final(self).program == old(self).program,
            old(self).ctx().output.is_prefix_of(final(self).ctx().output),
            match r {
                Ok(b) => {
                    &&& b == true
                    &&& spec_emit_native_repeat(
                        old(self).ctx(),
                        wp_instr_view(*count),
                        wp_instr_view(*to_repeat),
                        fuel as nat,
                    ) == Ok::<CtxV, AbortV>(final(self).ctx())
                    &&& same_frames(old(self).ctx(), final(self).ctx())
                },
                Err(e) => spec_emit_native_repeat(
                    old(self).ctx(),
                    wp_instr_view(*count),
                    wp_instr_view(*to_repeat),
                    fuel as nat,
                ) == Err::<CtxV, AbortV>(abort_of(final(self).ctx(), err_view(e))),
            },
        decreases fuel, 0nat,
    {
        let ghost c0 = self.ctx();
        let ghost cv = wp_instr_view(*count);
        let ghost tv = wp_instr_view(*to_repeat);
        proof {
            lemma_balance_native_repeat(c0, cv, tv, fuel as nat);
        }
        if fuel == 0 {
            return Err(
                CompileError::Invalid {
                    message: String::from_str("expansion depth budget exceeded"),
                    start: to_repeat.start,
                    end: to_repeat.end,
                },
            );
        }
        let count_val = match self.context.resolve_variable_rec("__count") {
            Some(v) => v.value.as_integer(),
            None => None,
        };
        match count_val {
            Some(times) => {
                let mut j: u32 = 0;
                proof {
                    assert(spec_repeat(c0, tv, (times - j) as nat, fuel as nat) == spec_repeat(
                        c0,
                        tv,
                        times as nat,
                        fuel as nat,
                    ));
                }
                while j < times
                    invariant
                        j <= times,
                        fuel > 0,
                        self.wf(),
                        self.program == old(self).program,
                        ctx_open(self.ctx()),
                        same_frames(c0, self.ctx()),
                        spec_emit_native_repeat(c0, cv, tv, fuel as nat) == spec_repeat(
                            c0,
                            tv,
                            times as nat,
                            fuel as nat,
                        ),
                        spec_repeat(c0, tv, times as nat, fuel as nat) == spec_repeat(
                            self.ctx(),
                            tv,
                            (times - j) as nat,
                            fuel as nat,
                        ),
                    decreases times - j,
                {
                    let ghost prev = self.ctx();
                    match self.emit_instr(to_repeat, fuel - 1) {
                        Ok(()) => {
                            proof {
                                assert(spec_emit_instr(prev, tv, (fuel - 1) as nat)
                                    == Ok::<CtxV, AbortV>(self.ctx()));
                                assert(spec_repeat(prev, tv, (times - j) as nat, fuel as nat)
                                    == spec_repeat(
                                    self.ctx(),
                                    tv,
                                    (times - j - 1) as nat,
                                    fuel as nat,
                                ));
                            }
                        },
                        Err(e) => {
                            proof {
                                assert(spec_repeat(prev, tv, (times - j) as nat, fuel as nat)
                                    == Err::<CtxV, AbortV>(abort_of(self.ctx(), err_view(e))));
                            }
                            return Err(e);
                        },
                    }
                    j = j + 1;
                }
                proof {
                    assert(spec_repeat(self.ctx(), tv, (times - j) as nat, fuel as nat)
                        == Ok::<CtxV, AbortV>(self.ctx()));
                }
                Ok(true)
            },
            None => Err(
                CompileError::Invalid {
                    message: String::from_str(
                        "First argument of repeat function R is expected to be an integer",
                    ),
                    start: count.start,
                    end: count.end,
                },
            ),
        }
    }

    /// Expand a literal operand: integers and strings emit directly,
    /// identifiers resolve through the binding chain, and calls dispatch to
    /// the built-in repeat or to a registered macro.
    #[verifier::loop_isolation(false)]
    pub fn emit_super_value(
        &mut self,
        super_value: &WithPos<SuperValue>,
        fuel: u64,
    ) -> (r: Result<(), CompileError>)
        requires
            old(self).wf(),
            ctx_open(old(self).ctx()),
        ensures
            final(self).wf(),
            final(self).program == old(self).program,
            old(self).ctx().output.is_prefix_of(final(self).ctx().output),
            match r {
                Ok(()) => {
                    &&& spec_emit_super_value(
                        old(self).ctx(),
                        WithPosV {
                            start: super_value.start as nat,
                            end: super_value.end as nat,
                            value: crate::ast::sv_view(super_value.value),
                        },
                        fuel as nat,
                    ) == Ok::<CtxV, AbortV>(final(self).ctx())
                    &&& same_frames(old(self).ctx(), final(self).ctx())
                },
                Err(e) => spec_emit_super_value(
                    old(self).ctx(),
                    WithPosV {
                        start: super_value.start as nat,
                        end: super_value.end as nat,
                        value: crate::ast::sv_view(super_value.value),
                    },
                    fuel as nat,
                ) == Err::<CtxV, AbortV>(abort_of(final(self).ctx(), err_view(e))),
            },
        decreases fuel, 0nat,
    {
        let ghost c0 = self.ctx();
        let ghost svv = WithPosV {
            start: super_value.start as nat,
            end: super_value.end as nat,
            value: crate::ast::sv_view(super_value.value),
        };
        proof {
            lemma_balance_super_value(c0, svv, fuel as nat);
        }
        if fuel == 0 {
            return Err(
                CompileError::Invalid {
                    message: String::from_str("expansion depth budget exceeded"),
                    start: super_value.start,
                    end: super_value.end,
                },
            );
        }
        match &super_value.value {
            SuperValue::Integer(n) => {
                let r = self.emit_inline(BInstr::Add(#[verifier::truncate] (*n as i32)));
                r
            },
            SuperValue::String(s) => {
                let chunks = string_chunks(s);
                self.emit_inline_seq(chunks)
            },
            SuperValue::Literal(lit) => {
                match self.context.resolve_variable_rec(lit.as_str()) {
                    Some(var) => self.emit_instr(&var, fuel - 1),
                    None => Err(
                        CompileError::UndeclaredSymbol {
                            name: lit.clone(),
                            start: super_value.start,
                            end: super_value.end,
                        },
                    ),
                }
            },
            SuperValue::SuperCall { callee, args } => {
                let r_name = String::from_str("R");
                if callee.value == r_name && args.len() == 2 {
                    proof {
                        lemma_body_view(args@);
                    }
                    self.context.new_scope();
                    self.context.push_variable(
                        callee.transfer(String::from_str("__count")),
                        args[0].clone(),
                    );
                    match self.emit_native_repeat(&args[0], &args[1], fuel - 1) {
                        Ok(_) => {},
                        Err(e) => {
                            return Err(e);
                        },
                    }
                    self.context.end_scope();
                    return Ok(());
                }
                proof {
                    lemma_map_find(
                        self.context.calls_model().symbols,
                        call_viewfn(),
                        call_name(),
                        callee.value@,
                    );
                }
                let recursive = self.context.find_fncall(callee.value.as_str());
                if recursive {
                    let mut msg = String::from_str("\"");
                    msg.append(callee.value.as_str());
                    msg.append("\" cannot be recursive");
                    return Err(
                        CompileError::Invalid {
                            message: msg,
                            start: callee.start,
                            end: callee.end,
                        },
                    );
                }
                proof {
                    lemma_map_find(
                        self.context.funcs_model().symbols,
                        sym_viewfn(),
                        func_name(),
                        callee.value@,
                    );
                }
                let found = self.context.find_func(callee.value.as_str());
                match found {
                    Some(s) => {
                        proof {
                            lemma_last_index_of(self.context.funcs_model().symbols, callee.value@);
                        }
                        if let Instruction::SuperFunction { args: params, body, .. } = s.of.value {
                            let ghost paramsv = params_view(params@);
                            let ghost argsv = body_view(args@);
                            proof {
                                lemma_body_view(args@);
                            }
                            self.context.new_scope();
                            let ghost c1 = self.ctx();
                            proof {
                                assert(paramsv.skip(0) =~= paramsv);
                                assert(argsv.skip(0) =~= argsv);
                            }
                            let mut i: usize = 0;
                            while i < params.len() && i < args.len()
                                invariant
                                    i <= params@.len(),
                                    i <= args@.len(),
                                    paramsv == params_view(params@),
                                    argsv == body_view(args@),
                                    argsv.len() == args@.len(),
                                    forall|k: int|
                                        0 <= k < args@.len() ==> argsv[k] == wp_instr_view(
                                            #[trigger] args@[k],
                                        ),
                                    self.wf(),
                                    self.program == old(self).program,
                                    ctx_open(self.ctx()),
                                    same_frames(c1, self.ctx()),
                                    spec_push_params(c1, paramsv, argsv) == spec_push_params(
                                        self.ctx(),
                                        paramsv.skip(i as int),
                                        argsv.skip(i as int),
                                    ),
                                decreases params@.len() - i,
                            {
                                proof {
                                    assert(paramsv.skip(i as int)[0] == paramsv[i as int]);
                                    assert(argsv.skip(i as int)[0] == argsv[i as int]);
                                }
                                self.context.push_variable(params[i].clone(), args[i].clone());
                                proof {
                                    assert(paramsv.skip(i as int).drop_first() =~= paramsv.skip(
                                        i + 1int,
                                    ));
                                    assert(argsv.skip(i as int).drop_first() =~= argsv.skip(
                                        i + 1int,
                                    ));
                                }
                                i = i + 1;
                            }
                            proof {
                                if i < paramsv.len() {
                                    assert(argsv.skip(i as int).len() == 0);
                                } else {
                                    assert(paramsv.skip(i as int).len() == 0);
                                }
                                assert(spec_push_params(c1, paramsv, argsv) == self.ctx());
                            }
                            self.context.new_scope();
                            self.context.push_fncall(callee.value.clone());
                            match self.emit_body(&body, fuel - 1) {
                                Ok(()) => {},
                                Err(e) => {
                                    return Err(e);
                                },
                            }
                            self.context.end_scope();
                            self.context.end_scope();
                            return Ok(());
                        }
                        Err(
                            CompileError::UndeclaredFunction {
                                name: callee.value.clone(),
                                start: callee.start,
                                end: callee.end,
                            },
                        )
                    },
                    None => Err(
                        CompileError::UndeclaredFunction {
                            name: callee.value.clone(),
                            start: callee.start,
                            end: callee.end,
                        },
                    ),
                }
            },
        }
    }

    /// Expand a loop node: `LoopStart`, the body, `LoopEnd`.
    pub fn emit_loop(
        &mut self,
        body: &Vec<WithPos<Instruction>>,
        fuel: u64,
    ) -> (r: Result<(), CompileError>)
        requires
            old(self).wf(),
            ctx_open(old(self).ctx()),
        ensures
            final(self).wf(),
            final(self).program == old(self).program,
            old(self).ctx().output.is_prefix_of(final(self).ctx().output),
            match r {
                Ok(()) => {
                    &&& spec_emit_loop(old(self).ctx(), body_view(body@), fuel as nat)
                        == Ok::<CtxV, AbortV>(final(self).ctx())
                    &&& same_frames(old(self).ctx(), final(self).ctx())
                },
                Err(e) => spec_emit_loop(old(self).ctx(), body_view(body@), fuel as nat)
                    == Err::<CtxV, AbortV>(abort_of(final(self).ctx(), err_view(e))),
            },
        decreases fuel, 2nat,
    {
        let ghost c0 = self.ctx();
        proof {
            lemma_balance_loop(c0, body_view(body@), fuel as nat);
        }
        match self.emit_inline(BInstr::LoopStart) {
            Ok(()) => {},
            Err(e) => {
                return Err(e);
            },
        }
        match self.emit_body(body, fuel) {
            Ok(()) => self.emit_inline(BInstr::LoopEnd),
            Err(e) => Err(e),
        }
    }

    /// Expand one instruction node: basic nodes emit directly, loops recurse,
    /// inline values dispatch, and macro definitions are registered without
    /// emitting anything.
    pub fn emit_instr(
        &mut self,
        instr: &WithPos<Instruction>,
        fuel: u64,
    ) -> (r: Result<(), CompileError>)
        requires
            old(self).wf(),
            ctx_open(old(self).ctx()),
        ensures
            final(self).wf(),
            final(self).program == old(self).program,
            old(self).ctx().output.is_prefix_of(final(self).ctx().output),
            match r {
                Ok(()) => {
                    &&& spec_emit_instr(old(self).ctx(), wp_instr_view(*instr), fuel as nat)
                        == Ok::<CtxV, AbortV>(final(self).ctx())
                    &&& same_frames(old(self).ctx(), final(self).ctx())
                },
                Err(e) => spec_emit_instr(old(self).ctx(), wp_instr_view(*instr), fuel as nat)
                    == Err::<CtxV, AbortV>(abort_of(final(self).ctx(), err_view(e))),
            },
        decreases fuel, 0nat,
    {
        let ghost c0 = self.ctx();
        proof {
            lemma_balance_instr(c0, wp_instr_view(*instr), fuel as nat);
        }
        if fuel == 0 {
            return Err(
                CompileError::Invalid {
                    message: String::from_str("expansion depth budget exceeded"),
                    start: instr.start,
                    end: instr.end,
                },
            );
        }
        match &instr.value {
            Instruction::Add(_) | Instruction::Move(_) | Instruction::PutC
                | Instruction::GetC => {
                let b = BInstr::from_basic(&instr.value);
                self.emit_inline(b)
            },
            Instruction::Loop { body } => self.emit_loop(body, fuel - 1),
            Instruction::InlineValue(super_value) => {
                let sv = instr.transfer(super_value.clone());
                self.emit_super_value(&sv, fuel - 1)
            },
            Instruction::SuperFunction { .. } => {
                self.context.push_func(instr.clone());
                Ok(())
            },
        }
    }

    /// Expand a sequence of instructions in order, stopping at the first
    /// error.
    #[verifier::loop_isolation(false)]
    pub fn emit_body(
        &mut self,
        body: &Vec<WithPos<Instruction>>,
        fuel: u64,
    ) -> (r: Result<(), CompileError>)
        requires
            old(self).wf(),
            ctx_open(old(self).ctx()),
        ensures
            final(self).wf(),
            final(self).program == old(self).program,
            old(self).ctx().output.is_prefix_of(final(self).ctx().output),
            match r {
                Ok(()) => {
                    &&& spec_emit_body(old(self).ctx(), body_view(body@), fuel as nat)
                        == Ok::<CtxV, AbortV>(final(self).ctx())
                    &&& same_frames(old(self).ctx(), final(self).ctx())
                },
                Err(e) => spec_emit_body(old(self).ctx(), body_view(body@), fuel as nat)
                    == Err::<CtxV, AbortV>(abort_of(final(self).ctx(), err_view(e))),
            },
        decreases fuel, 1nat,
    {
        let ghost c0 = self.ctx();
        let ghost bodyv = body_view(body@);
        proof {
            lemma_body_view(body@);
            lemma_balance_body(c0, bodyv, fuel as nat);
        }
        if body.len() > 0 && fuel == 0 {
            return Err(
                CompileError::Invalid {
                    message: String::from_str("expansion depth budget exceeded"),
                    start: body[0].start,
                    end: body[0].end,
                },
            );
        }
        proof {
            assert(bodyv.skip(0) =~= bodyv);
        }
        let mut i: usize = 0;
        while i < body.len()
            invariant
                i <= body@.len(),
                bodyv == body_view(body@),
                bodyv.len() == body@.len(),
                forall|k: int|
                    0 <= k < body@.len() ==> bodyv[k] == wp_instr_view(#[trigger] body@[k]),
                body@.len() > 0 ==> fuel > 0,
                self.wf(),
                self.program == old(self).program,
                ctx_open(self.ctx()),
                same_frames(c0, self.ctx()),
                spec_emit_body(c0, bodyv, fuel as nat) == spec_emit_body(
                    self.ctx(),
                    bodyv.skip(i as int),
                    fuel as nat,
                ),
            decreases body@.len() - i,
        {
            proof {
                assert(bodyv.skip(i as int)[0] == bodyv[i as int]);
            }
            let ghost prev = self.ctx();
            match self.emit_instr(&body[i], fuel - 1) {
                Ok(()) => {
                    proof {
                        assert(spec_emit_instr(prev, bodyv[i as int], (fuel - 1) as nat)
                            == Ok::<CtxV, AbortV>(self.ctx()));
                        assert(bodyv.skip(i as int).drop_first() =~= bodyv.skip(i + 1int));
                        assert(spec_emit_body(prev, bodyv.skip(i as int), fuel as nat)
                            == spec_emit_body(self.ctx(), bodyv.skip(i + 1int), fuel as nat));
                    }
                },
                Err(e) => {
                    proof {
                        assert(spec_emit_body(prev, bodyv.skip(i as int), fuel as nat)
                            == Err::<CtxV, AbortV>(abort_of(self.ctx(), err_view(e))));
                    }
                    return Err(e);
                },
            }
            i = i + 1;
        }
        proof {
            assert(bodyv.skip(i as int).len() == 0);
        }
        Ok(())
    }

    /// Expand the whole program, within one open root scope.
    pub fn compile(&mut self) -> (r: Result<(), CompileError>)
        requires
            old(self).wf(),
        ensures
            final(self).wf(),
            final(self).program == old(self).program,
            old(self).ctx().output.is_prefix_of(final(self).ctx().output),
            match r {
                Ok(()) => spec_compile(
                    old(self).ctx(),
                    body_view(old(self).program@),
                    EXPANSION_DEPTH_BUDGET as nat,
                ) == Ok::<CtxV, AbortV>(final(self).ctx()),
                Err(e) => spec_compile(
                    old(self).ctx(),
                    body_view(old(self).program@),
                    EXPANSION_DEPTH_BUDGET as nat,
                ) == Err::<CtxV, AbortV>(abort_of(final(self).ctx(), err_view(e))),
            },
    {
        let ghost c0 = self.ctx();
        proof {
            lemma_balance_body(
                ctx_new_scope(c0),
                body_view(self.program@),
                EXPANSION_DEPTH_BUDGET as nat,
            );
        }
        let prog = clone_body(&self.program);
        self.context.new_scope();
        match self.emit_body(&prog, EXPANSION_DEPTH_BUDGET) {
            Ok(()) => {
                self.context.end_scope();
                Ok(())
            },
            Err(e) => Err(e),
        }
    }
}

/// The `Add`/`Move` chunk sequence that a string literal denotes.
#[verifier::loop_isolation(false)]
fn string_chunks(s: &String) -> (r: Vec<BInstr>)
    ensures
        r@ == spec_string_out(s@),
{
    let total = s.as_str().unicode_len();
    let mut out: Vec<BInstr> = Vec::new();
    let mut i: usize = 0;
    while i < total
        invariant
            i <= total,
            total == s@.len(),
            spec_string_out(s@) == out@ + spec_string_from(s@, i as int),
        decreases total - i,
    {
        let c = s.as_str().get_char(i);
        let chunk = BInstr::Add((c as i32) & 0xff);
        if i + 1 != total {
            out.push(chunk);
            out.push(BInstr::Move(1));
            proof {
                assert(spec_string_from(s@, i as int) =~= seq![
                    BInstr::Add(char_add(s@[i as int])),
                    BInstr::Move(1),
                ] + spec_string_from(s@, i + 1int));
                assert(spec_string_out(s@) =~= out@ + spec_string_from(s@, i + 1int));
            }
        } else {
            out.push(chunk);
            proof {
                assert(spec_string_from(s@, i as int) =~= seq![
                    BInstr::Add(char_add(s@[i as int])),
                ]);
                assert(spec_string_out(s@) =~= out@ + spec_string_from(s@, i + 1int));
            }
        }
        i = i + 1;
    }
    proof {
        assert(spec_string_from(s@, i as int) =~= Seq::<BInstr>::empty());
        assert(spec_string_out(s@) =~= out@);
    }
    out
}

// ===== Laws of expansion =====

/// The bracket contribution of one instruction.
pub open spec fn bracket_delta(b: BInstr) -> int {
    match b {
        BInstr::LoopStart => 1,
        BInstr::LoopEnd => -1,
        _ => 0,
    }
}

/// The net bracket nesting of a stream.
pub open spec fn bracket_net(s: Seq<BInstr>) -> int
    decreases s.len(),
{
    if s.len() == 0 {
        0
    } else {
        bracket_delta(s[0]) + bracket_net(s.drop_first())
    }
}

/// Processing `s` from nesting depth `d`, no `LoopEnd` arrives at depth zero.
pub open spec fn wb_from(s: Seq<BInstr>, d: int) -> bool
    decreases s.len(),
{
    if s.len() == 0 {
        true
    } else {
        &&& (s[0] is LoopEnd ==> d > 0)
        &&& wb_from(s.drop_first(), d + bracket_delta(s[0]))
    }
}

/// Every `LoopStart` is matched by a later `LoopEnd` at the same nesting
/// depth: the net nesting is zero and no prefix closes more than it opened.
pub open spec fn balanced(s: Seq<BInstr>) -> bool {
    wb_from(s, 0) && bracket_net(s) == 0
}

pub proof fn lemma_net_append(a: Seq<BInstr>, b: Seq<BInstr>)
    ensures
        bracket_net(a + b) == bracket_net(a) + bracket_net(b),
    decreases a.len(),
{
    if a.len() == 0 {
        assert(a + b =~= b);
    } else {
        lemma_net_append(a.drop_first(), b);
        assert((a + b).drop_first() =~= a.drop_first() + b);
    }
}

pub proof fn lemma_wb_append(a: Seq<BInstr>, b: Seq<BInstr>, d: int)
    requires
        wb_from(a, d),
        wb_from(b, d + bracket_net(a)),
    ensures
        wb_from(a + b, d),
    decreases a.len(),
{
    if a.len() == 0 {
        assert(a + b =~= b);
    } else {
        lemma_wb_append(a.drop_first(), b, d + bracket_delta(a[0]));
        assert((a + b).drop_first() =~= a.drop_first() + b);
    }
}

pub proof fn lemma_wb_mono(s: Seq<BInstr>, d1: int, d2: int)
    requires
        wb_from(s, d1),
        d1 <= d2,
    ensures
        wb_from(s, d2),
    decreases s.len(),
{
    if s.len() > 0 {
        lemma_wb_mono(s.drop_first(), d1 + bracket_delta(s[0]), d2 + bracket_delta(s[0]));
    }
}

/// Two balanced streams concatenate to a balanced stream.
pub proof fn lemma_balanced_append(a: Seq<BInstr>, b: Seq<BInstr>)
    requires
        balanced(a),
        balanced(b),
    ensures
        balanced(a + b),
{
    lemma_net_append(a, b);
    lemma_wb_append(a, b, 0);
}

/// A balanced stream stays balanced inside one more pair of brackets.
pub proof fn lemma_balanced_wrap(s: Seq<BInstr>)
    requires
        balanced(s),
    ensures
        balanced(seq![BInstr::LoopStart] + s + seq![BInstr::LoopEnd]),
{
    let ls = seq![BInstr::LoopStart];
    let le = seq![BInstr::LoopEnd];
    let w = ls + s + le;
    reveal_with_fuel(bracket_net, 3);
    reveal_with_fuel(wb_from, 3);
    assert(le.drop_first() =~= Seq::<BInstr>::empty());
    assert(le[0] is LoopEnd);
    assert(bracket_net(le) == -1);
    assert(wb_from(le, 1));
    lemma_wb_mono(s, 0, 1);
    lemma_wb_append(s, le, 1);
    lemma_net_append(s, le);
    assert(w.drop_first() =~= s + le);
    assert(w[0] is LoopStart);
    assert(wb_from(w, 0));
    assert(bracket_net(w) == bracket_delta(w[0]) + bracket_net(s + le));
    assert(bracket_net(w) == 0);
}

/// A stream without bracket instructions is balanced.
pub proof fn lemma_balanced_bracket_free(s: Seq<BInstr>)
    requires
        forall|i: int| 0 <= i < s.len() ==> !(#[trigger] s[i] is LoopStart) && !(s[i] is LoopEnd),
    ensures
        balanced(s),
    decreases s.len(),
{
    if s.len() > 0 {
        assert(forall|i: int|
            0 <= i < s.len() - 1 ==> #[trigger] s.drop_first()[i] == s[i + 1]);
        lemma_balanced_bracket_free(s.drop_first());
    }
}

/// A string literal's chunk stream holds no brackets, so it is balanced.
pub proof fn lemma_string_balanced(s: Seq<char>, i: int)
    ensures
        balanced(spec_string_from(s, i)),
    decreases s.len() - i,
{
    if i < 0 || i >= s.len() {
    } else if i == s.len() - 1 {
        lemma_balanced_bracket_free(spec_string_from(s, i));
    } else {
        lemma_string_balanced(s, i + 1);
        let two = seq![BInstr::Add(char_add(s[i])), BInstr::Move(1i32)];
        lemma_balanced_bracket_free(two);
        lemma_balanced_append(two, spec_string_from(s, i + 1));
    }
}

/// What one successful expansion step does to the output: it only appends,
/// and what it appends is balanced.
pub open spec fn output_extended_balanced(c: CtxV, c2: CtxV) -> bool {
    &&& c.output.is_prefix_of(c2.output)
    &&& balanced(c2.output.skip(c.output.len() as int))
}

proof fn lemma_oeb_refl(c: CtxV, c2: CtxV)
    requires
        c2.output == c.output,
    ensures
        output_extended_balanced(c, c2),
{
    assert(c2.output.skip(c.output.len() as int) =~= Seq::<BInstr>::empty());
    lemma_balanced_bracket_free(Seq::<BInstr>::empty());
}

proof fn lemma_oeb_trans(a: CtxV, b: CtxV, c: CtxV)
    requires
        output_extended_balanced(a, b),
        output_extended_balanced(b, c),
    ensures
        output_extended_balanced(a, c),
{
    let d1 = b.output.skip(a.output.len() as int);
    let d2 = c.output.skip(b.output.len() as int);
    lemma_balanced_append(d1, d2);
    assert(c.output.skip(a.output.len() as int) =~= d1 + d2);
    assert(a.output.is_prefix_of(c.output)) by {
        assert(a.output =~= c.output.take(a.output.len() as int));
    }
}

proof fn lemma_oeb_emit_one(c: CtxV, b: BInstr)
    requires
        !(b is LoopStart),
        !(b is LoopEnd),
    ensures
        output_extended_balanced(c, ctx_emit(c, b)),
{
    assert(ctx_emit(c, b).output.skip(c.output.len() as int) =~= seq![b]);
    lemma_balanced_bracket_free(seq![b]);
    assert(c.output.is_prefix_of(ctx_emit(c, b).output)) by {
        assert(c.output =~= ctx_emit(c, b).output.take(c.output.len() as int));
    }
}

/// Pushing parameter bindings never touches the output.
proof fn lemma_push_params_output(c: CtxV, params: Seq<WithPosV<Seq<char>>>, args: Seq<WithPosV<InstructionV>>)
    ensures
        spec_push_params(c, params, args).output == c.output,
    decreases params.len(),
{
    if params.len() > 0 && args.len() > 0 {
        lemma_push_params_output(
            ctx_push_var(c, params[0].value, args[0]),
            params.drop_first(),
            args.drop_first(),
        );
    }
}

/// Bracket balance and monotone output of one instruction's expansion: on
/// success the appended stream is balanced; on failure the output at the
/// abort still extends the output before the call.
pub proof fn lemma_balance_instr(c: CtxV, i: WithPosV<InstructionV>, fuel: nat)
    ensures
        spec_emit_instr(c, i, fuel) matches Ok(c2) ==> output_extended_balanced(c, c2),
        spec_emit_instr(c, i, fuel) matches Err(a) ==> c.output.is_prefix_of(a.ctx.output),
    decreases fuel, 0nat, 0nat,
{
    if fuel == 0 {
        lemma_prefix_refl(c.output);
    } else {
        match i.value {
            InstructionV::Add(n) => {
                lemma_oeb_emit_one(c, BInstr::Add(n));
            },
            InstructionV::Move(n) => {
                lemma_oeb_emit_one(c, BInstr::Move(n));
            },
            InstructionV::PutC => {
                lemma_oeb_emit_one(c, BInstr::PutC);
            },
            InstructionV::GetC => {
                lemma_oeb_emit_one(c, BInstr::GetC);
            },
            InstructionV::Loop { body } => {
                lemma_balance_loop(c, body, (fuel - 1) as nat);
            },
            InstructionV::InlineValue(v) => {
                lemma_balance_super_value(
                    c,
                    WithPosV { start: i.start, end: i.end, value: v },
                    (fuel - 1) as nat,
                );
            },
            InstructionV::SuperFunction { .. } => {
                lemma_oeb_refl(c, ctx_push_func(c, i));
            },
        }
    }
}

/// Bracket balance of a loop's expansion: the body's balanced emission sits
/// between one `LoopStart` and one `LoopEnd`.
pub proof fn lemma_balance_loop(c: CtxV, body: Seq<WithPosV<InstructionV>>, fuel: nat)
    ensures
        spec_emit_loop(c, body, fuel) matches Ok(c2) ==> output_extended_balanced(c, c2),
        spec_emit_loop(c, body, fuel) matches Err(a) ==> c.output.is_prefix_of(a.ctx.output),
    decreases fuel, 2nat, 0nat,
{
    let c1 = ctx_emit(c, BInstr::LoopStart);
    assert(c.output.is_prefix_of(c1.output)) by {
        assert(c.output =~= c1.output.subrange(0, c.output.len() as int));
    }
    lemma_balance_body(c1, body, fuel);
    if let Ok(cb) = spec_emit_body(c1, body, fuel) {
        let c2 = ctx_emit(cb, BInstr::LoopEnd);
        let inner = cb.output.skip(c1.output.len() as int);
        lemma_balanced_wrap(inner);
        assert(cb.output =~= c1.output + inner);
        assert(c1.output =~= c.output + seq![BInstr::LoopStart]);
        assert(c2.output =~= c.output + (seq![BInstr::LoopStart] + inner + seq![
            BInstr::LoopEnd,
        ]));
        assert(c2.output.skip(c.output.len() as int) =~= seq![BInstr::LoopStart] + inner + seq![
            BInstr::LoopEnd,
        ]);
        assert(c.output.is_prefix_of(c2.output)) by {
            assert(c.output =~= c2.output.take(c.output.len() as int));
        }
    }
    if let Err(a) = spec_emit_body(c1, body, fuel) {
        lemma_prefix_trans(c.output, c1.output, a.ctx.output);
    }
}

/// Bracket balance of a sequence's expansion.
pub proof fn lemma_balance_body(c: CtxV, body: Seq<WithPosV<InstructionV>>, fuel: nat)
    ensures
        spec_emit_body(c, body, fuel) matches Ok(c2) ==> output_extended_balanced(c, c2),
        spec_emit_body(c, body, fuel) matches Err(a) ==> c.output.is_prefix_of(a.ctx.output),
    decreases fuel, 1nat, body.len(),
{
    if body.len() == 0 {
        lemma_oeb_refl(c, c);
    } else if fuel == 0 {
        lemma_prefix_refl(c.output);
    } else {
        lemma_balance_instr(c, body[0], (fuel - 1) as nat);
        if let Ok(c1) = spec_emit_instr(c, body[0], (fuel - 1) as nat) {
            lemma_balance_body(c1, body.drop_first(), fuel);
            if let Ok(c2) = spec_emit_body(c1, body.drop_first(), fuel) {
                lemma_oeb_trans(c, c1, c2);
            }
            if let Err(a) = spec_emit_body(c1, body.drop_first(), fuel) {
                lemma_prefix_trans(c.output, c1.output, a.ctx.output);
            }
        }
    }
}

/// Bracket balance of the built-in repeat.
pub proof fn lemma_balance_repeat(c: CtxV, t: WithPosV<InstructionV>, k: nat, fuel: nat)
    ensures
        spec_repeat(c, t, k, fuel) matches Ok(c2) ==> output_extended_balanced(c, c2),
        spec_repeat(c, t, k, fuel) matches Err(a) ==> c.output.is_prefix_of(a.ctx.output),
    decreases fuel, 2nat, k,
{
    if k == 0 {
        lemma_oeb_refl(c, c);
    } else if fuel == 0 {
        lemma_prefix_refl(c.output);
    } else {
        lemma_balance_instr(c, t, (fuel - 1) as nat);
        if let Ok(c1) = spec_emit_instr(c, t, (fuel - 1) as nat) {
            lemma_balance_repeat(c1, t, (k - 1) as nat, fuel);
            if let Ok(c2) = spec_repeat(c1, t, (k - 1) as nat, fuel) {
                lemma_oeb_trans(c, c1, c2);
            }
            if let Err(a) = spec_repeat(c1, t, (k - 1) as nat, fuel) {
                lemma_prefix_trans(c.output, c1.output, a.ctx.output);
            }
        }
    }
}

/// Bracket balance of the repeat dispatcher.
pub proof fn lemma_balance_native_repeat(
    c: CtxV,
    cnt: WithPosV<InstructionV>,
    t: WithPosV<InstructionV>,
    fuel: nat,
)
    ensures
        spec_emit_native_repeat(c, cnt, t, fuel) matches Ok(c2) ==> output_extended_balanced(
            c,
            c2,
        ),
        spec_emit_native_repeat(c, cnt, t, fuel) matches Err(a) ==> c.output.is_prefix_of(
            a.ctx.output,
        ),
    decreases fuel, 3nat, 0nat,
{
    if fuel == 0 {
        lemma_prefix_refl(c.output);
    } else {
        let count = match spec_resolve(
            c.vars.symbols,
            "__count"@,
            None,
            resolve_fuel(c.vars.symbols.len()),
        ) {
            Some(v) => spec_as_integer(v.value),
            None => None,
        };
        match count {
            Some(k) => {
                lemma_balance_repeat(c, t, k as nat, fuel);
            },
            None => {
                lemma_prefix_refl(c.output);
            },
        }
    }
}

/// Bracket balance of a literal operand's expansion.
pub proof fn lemma_balance_super_value(c: CtxV, sv: WithPosV<SuperValueV>, fuel: nat)
    ensures
        spec_emit_super_value(c, sv, fuel) matches Ok(c2) ==> output_extended_balanced(c, c2),
        spec_emit_super_value(c, sv, fuel) matches Err(a) ==> c.output.is_prefix_of(
            a.ctx.output,
        ),
    decreases fuel, 4nat, 0nat,
{
    if fuel == 0 {
        lemma_prefix_refl(c.output);
    } else {
        match sv.value {
            SuperValueV::Integer(n) => {
                lemma_oeb_emit_one(c, BInstr::Add(#[verifier::truncate] (n as i32)));
            },
            SuperValueV::String(s) => {
                let c2 = ctx_emit_seq(c, spec_string_out(s));
                lemma_string_balanced(s, 0);
                assert(c2.output.skip(c.output.len() as int) =~= spec_string_out(s));
                assert(c.output.is_prefix_of(c2.output)) by {
                    assert(c.output =~= c2.output.take(c.output.len() as int));
                }
            },
            SuperValueV::Literal(lit) => {
                match spec_resolve(
                    c.vars.symbols,
                    lit,
                    None,
                    resolve_fuel(c.vars.symbols.len()),
                ) {
                    Some(var) => {
                        lemma_balance_instr(c, var, (fuel - 1) as nat);
                    },
                    None => {
                        lemma_prefix_refl(c.output);
                    },
                }
            },
            SuperValueV::SuperCall { callee, args } => {
                if callee.value == "R"@ && args.len() == 2 {
                    let c2 = ctx_push_var(ctx_new_scope(c), "__count"@, args[0]);
                    assert(c2.output == c.output);
                    lemma_balance_native_repeat(c2, args[0], args[1], (fuel - 1) as nat);
                    if let Ok(c3) = spec_emit_native_repeat(
                        c2,
                        args[0],
                        args[1],
                        (fuel - 1) as nat,
                    ) {
                        assert(ctx_end_scope(c3).output == c3.output);
                        lemma_oeb_refl(c, c2);
                        lemma_oeb_trans(c, c2, c3);
                        lemma_oeb_refl(c3, ctx_end_scope(c3));
                        lemma_oeb_trans(c, c3, ctx_end_scope(c3));
                    }
                    if let Err(a) = spec_emit_native_repeat(
                        c2,
                        args[0],
                        args[1],
                        (fuel - 1) as nat,
                    ) {
                        lemma_prefix_refl(c.output);
                        lemma_prefix_trans(c.output, c2.output, a.ctx.output);
                    }
                } else if smv_find(c.calls.symbols, call_name(), callee.value) is Some {
                    lemma_prefix_refl(c.output);
                } else {
                    match smv_find(c.funcs.symbols, func_name(), callee.value) {
                        Some(i) => match c.funcs.symbols[i].value {
                            InstructionV::SuperFunction { args: params, body, .. } => {
                                let c2 = spec_push_params(ctx_new_scope(c), params, args);
                                let c3 = ctx_push_call(ctx_new_scope(c2), callee.value);
                                lemma_push_params_output(ctx_new_scope(c), params, args);
                                assert(c3.output == c.output);
                                lemma_balance_body(c3, body, (fuel - 1) as nat);
                                if let Ok(c4) = spec_emit_body(c3, body, (fuel - 1) as nat) {
                                    lemma_oeb_refl(c, c3);
                                    lemma_oeb_trans(c, c3, c4);
                                    lemma_oeb_refl(c4, ctx_end_scope(ctx_end_scope(c4)));
                                    lemma_oeb_trans(c, c4, ctx_end_scope(ctx_end_scope(c4)));
                                }
                                if let Err(a) = spec_emit_body(c3, body, (fuel - 1) as nat) {
                                    lemma_prefix_refl(c.output);
                                    lemma_prefix_trans(c.output, c3.output, a.ctx.output);
                                }
                            },
                            _ => {
                                lemma_prefix_refl(c.output);
                            },
                        },
                        None => {
                            lemma_prefix_refl(c.output);
                        },
                    }
                }
            },
        }
    }
}

/// Bracket balance: whatever the program, a successful compilation starting
/// from an empty output emits a balanced basic-instruction stream.
pub proof fn lemma_compile_balanced(c: CtxV, prog: Seq<WithPosV<InstructionV>>, fuel: nat)
    requires
        c.output.len() == 0,
        spec_compile(c, prog, fuel) is Ok,
    ensures
        spec_compile(c, prog, fuel) matches Ok(c2) && balanced(c2.output),
{
    let c1 = ctx_new_scope(c);
    lemma_balance_body(c1, prog, fuel);
    if let Ok(c2) = spec_emit_body(c1, prog, fuel) {
        assert(c2.output.skip(0) =~= c2.output);
    }
}

/// Recursion rejection: a call to a macro whose own expansion is still in
/// progress fails with `Invalid`, whose message names the macro in quotes and
/// whose span is the offending call site; the context — output included — is
/// exactly as it stood, so the call emits nothing.  The marker is pushed
/// before a macro's body is expanded, so this covers calls reached
/// transitively.
pub proof fn lemma_recursion_rejected(
    c: CtxV,
    callee: WithPosV<Seq<char>>,
    args: Seq<WithPosV<InstructionV>>,
    start: nat,
    end: nat,
    fuel: nat,
)
    requires
        fuel > 0,
        !(callee.value == "R"@ && args.len() == 2),
        smv_find(c.calls.symbols, call_name(), callee.value) is Some,
    ensures
        spec_emit_super_value(
            c,
            WithPosV { start, end, value: SuperValueV::SuperCall { callee, args } },
            fuel,
        ) == Err::<CtxV, AbortV>(
            abort_of(
                c,
                CompileErrorV::Invalid {
                    message: recursive_msg(callee.value),
                    start: callee.start,
                    end: callee.end,
                },
            ),
        ),
{
}

// ===== Laws of scoping at the emitter =====

/// Context `c2` extends `c1` without leaving the innermost scope, on all
/// three stacks; the outputs are unrelated.
pub open spec fn ctx_extends(c1: CtxV, c2: CtxV) -> bool {
    &&& smv_extends(c1.funcs, c2.funcs)
    &&& smv_extends(c1.vars, c2.vars)
    &&& smv_extends(c1.calls, c2.calls)
}

proof fn lemma_ctx_extends_refl(c: CtxV)
    requires
        ctx_open(c),
    ensures
        ctx_extends(c, c),
{
    lemma_smv_extends_refl(c.funcs);
    lemma_smv_extends_refl(c.vars);
    lemma_smv_extends_refl(c.calls);
}

proof fn lemma_ctx_extends_trans(a: CtxV, b: CtxV, c: CtxV)
    requires
        ctx_extends(a, b),
        ctx_extends(b, c),
    ensures
        ctx_extends(a, c),
{
    lemma_smv_extends_trans(a.funcs, b.funcs, c.funcs);
    lemma_smv_extends_trans(a.vars, b.vars, c.vars);
    lemma_smv_extends_trans(a.calls, b.calls, c.calls);
}

/// Binding parameters only pushes within the innermost scope.
proof fn lemma_ctx_extends_push_params(
    c: CtxV,
    params: Seq<WithPosV<Seq<char>>>,
    args: Seq<WithPosV<InstructionV>>,
)
    requires
        ctx_open(c),
    ensures
        ctx_extends(c, spec_push_params(c, params, args)),
    decreases params.len(),
{
    if params.len() == 0 || args.len() == 0 {
        lemma_ctx_extends_refl(c);
    } else {
        let c1 = ctx_push_var(c, params[0].value, args[0]);
        lemma_smv_extends_push(
            c.vars,
            VarV { name: params[0].value, value: args[0] },
            params[0].value,
        );
        lemma_smv_extends_refl(c.funcs);
        lemma_smv_extends_refl(c.calls);
        lemma_ctx_extends_push_params(c1, params.drop_first(), args.drop_first());
        lemma_ctx_extends_trans(c, c1, spec_push_params(c1, params.drop_first(), args.drop_first()));
    }
}

/// Whatever a scope did — pushes on any of the three stacks in any order,
/// balanced inner scopes, emission — ending it restores all three stacks
/// exactly as they stood when the scope was opened; the output alone keeps
/// what was emitted.  Shadowed outer bindings are visible again because the
/// stacks are restored exactly.
pub proof fn lemma_ctx_scope_restore(c: CtxV, c2: CtxV)
    requires
        ctx_extends(ctx_new_scope(c), c2),
    ensures
        ctx_end_scope(c2) == (CtxV {
            funcs: c.funcs,
            vars: c.vars,
            calls: c.calls,
            output: c2.output,
        }),
{
    lemma_smv_extends_wrap(c.funcs, c2.funcs);
    lemma_smv_extends_wrap(c.vars, c2.vars);
    lemma_smv_extends_wrap(c.calls, c2.calls);
    assert(ctx_end_scope(c2) =~= CtxV {
        funcs: c.funcs,
        vars: c.vars,
        calls: c.calls,
        output: c2.output,
    });
}

/// A successful expansion step never escapes the scope it runs in.
proof fn lemma_scopes_instr(c: CtxV, i: WithPosV<InstructionV>, fuel: nat)
    requires
        ctx_open(c),
    ensures
        spec_emit_instr(c, i, fuel) matches Ok(c2) ==> ctx_extends(c, c2),
    decreases fuel, 0nat, 0nat,
{
    if fuel > 0 {
        match i.value {
            InstructionV::Add(_) | InstructionV::Move(_) | InstructionV::PutC
                | InstructionV::GetC => {
                lemma_ctx_extends_refl(c);
                if let Ok(c2) = spec_emit_instr(c, i, fuel) {
                    assert(ctx_extends(c, c2));
                }
            },
            InstructionV::Loop { body } => {
                lemma_scopes_loop(c, body, (fuel - 1) as nat);
            },
            InstructionV::InlineValue(v) => {
                lemma_scopes_super_value(
                    c,
                    WithPosV { start: i.start, end: i.end, value: v },
                    (fuel - 1) as nat,
                );
            },
            InstructionV::SuperFunction { .. } => {
                lemma_smv_extends_push(c.funcs, i, fname_of(i));
                lemma_smv_extends_refl(c.vars);
                lemma_smv_extends_refl(c.calls);
            },
        }
    }
}

proof fn lemma_scopes_loop(c: CtxV, body: Seq<WithPosV<InstructionV>>, fuel: nat)
    requires
        ctx_open(c),
    ensures
        spec_emit_loop(c, body, fuel) matches Ok(c2) ==> ctx_extends(c, c2),
    decreases fuel, 2nat, 0nat,
{
    let c1 = ctx_emit(c, BInstr::LoopStart);
    lemma_ctx_extends_refl(c);
    assert(ctx_extends(c, c1));
    lemma_scopes_body(c1, body, fuel);
    if let Ok(cb) = spec_emit_body(c1, body, fuel) {
        lemma_ctx_extends_trans(c, c1, cb);
        assert(ctx_extends(cb, ctx_emit(cb, BInstr::LoopEnd)));
        lemma_ctx_extends_trans(c, cb, ctx_emit(cb, BInstr::LoopEnd));
    }
}

proof fn lemma_scopes_body(c: CtxV, body: Seq<WithPosV<InstructionV>>, fuel: nat)
    requires
        ctx_open(c),
    ensures
        spec_emit_body(c, body, fuel) matches Ok(c2) ==> ctx_extends(c, c2),
    decreases fuel, 1nat, body.len(),
{
    if body.len() == 0 {
        lemma_ctx_extends_refl(c);
    } else if fuel > 0 {
        lemma_scopes_instr(c, body[0], (fuel - 1) as nat);
        if let Ok(c1) = spec_emit_instr(c, body[0], (fuel - 1) as nat) {
            lemma_scopes_body(c1, body.drop_first(), fuel);
            if let Ok(c2) = spec_emit_body(c1, body.drop_first(), fuel) {
                lemma_ctx_extends_trans(c, c1, c2);
            }
        }
    }
}

proof fn lemma_scopes_repeat(c: CtxV, t: WithPosV<InstructionV>, k: nat, fuel: nat)
    requires
        ctx_open(c),
    ensures
        spec_repeat(c, t, k, fuel) matches Ok(c2) ==> ctx_extends(c, c2),
    decreases fuel, 2nat, k,
{
    if k == 0 {
        lemma_ctx_extends_refl(c);
    } else if fuel > 0 {
        lemma_scopes_instr(c, t, (fuel - 1) as nat);
        if let Ok(c1) = spec_emit_instr(c, t, (fuel - 1) as nat) {
            lemma_scopes_repeat(c1, t, (k - 1) as nat, fuel);
            if let Ok(c2) = spec_repeat(c1, t, (k - 1) as nat, fuel) {
                lemma_ctx_extends_trans(c, c1, c2);
            }
        }
    }
}

proof fn lemma_scopes_native_repeat(
    c: CtxV,
    cnt: WithPosV<InstructionV>,
    t: WithPosV<InstructionV>,
    fuel: nat,
)
    requires
        ctx_open(c),
    ensures
        spec_emit_native_repeat(c, cnt, t, fuel) matches Ok(c2) ==> ctx_extends(c, c2),
    decreases fuel, 3nat, 0nat,
{
    if fuel > 0 {
        let count = match spec_resolve(
            c.vars.symbols,
            "__count"@,
            None,
            resolve_fuel(c.vars.symbols.len()),
        ) {
            Some(v) => spec_as_integer(v.value),
            None => None,
        };
        if let Some(k) = count {
            lemma_scopes_repeat(c, t, k as nat, fuel);
        }
    }
}

proof fn lemma_scopes_super_value(c: CtxV, sv: WithPosV<SuperValueV>, fuel: nat)
    requires
        ctx_open(c),
    ensures
        spec_emit_super_value(c, sv, fuel) matches Ok(c2) ==> ctx_extends(c, c2),
    decreases fuel, 4nat, 0nat,
{
    if fuel > 0 {
        match sv.value {
            SuperValueV::Integer(_) => {
                lemma_ctx_extends_refl(c);
            },
            SuperValueV::String(_) => {
                lemma_ctx_extends_refl(c);
            },
            SuperValueV::Literal(lit) => {
                match spec_resolve(
                    c.vars.symbols,
                    lit,
                    None,
                    resolve_fuel(c.vars.symbols.len()),
                ) {
                    Some(var) => {
                        lemma_scopes_instr(c, var, (fuel - 1) as nat);
                    },
                    None => {},
                }
            },
            SuperValueV::SuperCall { .. } => {
                lemma_call_restores_scopes(c, sv, fuel);
                if let Ok(c2) = spec_emit_super_value(c, sv, fuel) {
                    lemma_ctx_extends_refl(c);
                    assert(ctx_extends(c, c2));
                }
            },
        }
    }
}

/// Shadowing at the emitter: a successful call — the built-in repeat or a
/// user macro — leaves all three stacks exactly as they stood before it.
/// Every parameter binding, inner definition and call-site marker pushed for
/// the call is gone again, every outer binding the call shadowed is visible
/// again, and only the output has grown (by a balanced stream, see
/// `lemma_balance_super_value`).
pub proof fn lemma_call_restores_scopes(c: CtxV, sv: WithPosV<SuperValueV>, fuel: nat)
    requires
        ctx_open(c),
        sv.value is SuperCall,
    ensures
        spec_emit_super_value(c, sv, fuel) matches Ok(c2) ==> {
            &&& c2.funcs == c.funcs
            &&& c2.vars == c.vars
            &&& c2.calls == c.calls
            &&& c.output.is_prefix_of(c2.output)
        },
    decreases fuel, 3nat, 1nat,
{
    lemma_balance_super_value(c, sv, fuel);
    if fuel > 0 {
        if let SuperValueV::SuperCall { callee, args } = sv.value {
            let copen = ctx_new_scope(c);
            if callee.value == "R"@ && args.len() == 2 {
                let c2 = ctx_push_var(copen, "__count"@, args[0]);
                lemma_smv_extends_push(
                    copen.vars,
                    VarV { name: "__count"@, value: args[0] },
                    "__count"@,
                );
                lemma_smv_extends_refl(copen.funcs);
                lemma_smv_extends_refl(copen.calls);
                lemma_scopes_native_repeat(c2, args[0], args[1], (fuel - 1) as nat);
                if let Ok(c3) = spec_emit_native_repeat(c2, args[0], args[1], (fuel - 1) as nat) {
                    lemma_ctx_extends_trans(copen, c2, c3);
                    lemma_ctx_scope_restore(c, c3);
                }
            } else if smv_find(c.calls.symbols, call_name(), callee.value) is Some {
            } else {
                match smv_find(c.funcs.symbols, func_name(), callee.value) {
                    Some(i) => match c.funcs.symbols[i].value {
                        InstructionV::SuperFunction { args: params, body, .. } => {
                            let c2 = spec_push_params(copen, params, args);
                            lemma_ctx_extends_push_params(copen, params, args);
                            let c2open = ctx_new_scope(c2);
                            let c3 = ctx_push_call(c2open, callee.value);
                            lemma_smv_extends_push(c2open.calls, callee.value, callee.value);
                            lemma_smv_extends_refl(c2open.funcs);
                            lemma_smv_extends_refl(c2open.vars);
                            lemma_scopes_body(c3, body, (fuel - 1) as nat);
                            if let Ok(c4) = spec_emit_body(c3, body, (fuel - 1) as nat) {
                                lemma_ctx_extends_trans(c2open, c3, c4);
                                lemma_ctx_scope_restore(c2, c4);
                                let c5 = ctx_end_scope(c4);
                                assert(c5.funcs == c2.funcs && c5.vars == c2.vars && c5.calls
                                    == c2.calls);
                                lemma_ctx_extends_refl(copen);
                                assert(ctx_extends(copen, c2));
                                assert(ctx_extends(copen, c5)) by {
                                    assert(smv_extends(copen.funcs, c5.funcs));
                                    assert(smv_extends(copen.vars, c5.vars));
                                    assert(smv_extends(copen.calls, c5.calls));
                                }
                                lemma_ctx_scope_restore(c, c5);
                            }
                        },
                        _ => {},
                    },
                    None => {},
                }
            }
        }
    }
}

} // verus!
