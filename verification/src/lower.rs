//! Lowering lambda terms towards supercombinators: nested applications
//! become one application to a list of arguments, and nested lambdas one
//! lambda of several parameters.
use vstd::prelude::*;

verus! {

broadcast use vstd::std_specs::vec::group_vec_axioms;

/// Untyped lambda terms with de Bruijn indices.
#[derive(Debug, PartialEq, Eq)]
pub enum Expr {
    Var(usize),
    App(Box<Expr>, Box<Expr>),
    Lambda(Box<Expr>),
}

/// A function of `args` parameters.
pub struct SuperCombinator {
    pub args: usize,
    pub cont: (),
    pub body: CoreExpr,
}

/// Terms with applications to several arguments and lambdas of several
/// parameters.
#[derive(Debug, PartialEq, Eq)]
pub enum CoreExpr {
    Var(usize),
    App(Box<CoreExpr>, Vec<CoreExpr>),
    Lambda(usize, Box<CoreExpr>),
}

/// Instructions of a stack machine.
#[derive(Debug, Clone, Copy, PartialEq, Eq, Structural)]
pub enum Instruction {
    LocalGet(usize),
    I32Const(i32),
    I32Add,
    Call(usize),
    MakeClosure(usize),
    Print,
    Return,
}

pub enum CoreV {
    Var(usize),
    App(Box<CoreV>, Seq<CoreV>),
    Lambda(usize, Box<CoreV>),
}

pub open spec fn core_v(c: CoreExpr) -> CoreV
    decreases c, 1nat,
{
    match c {
        CoreExpr::Var(v) => CoreV::Var(v),
        CoreExpr::App(f, args) => CoreV::App(Box::new(core_v(*f)), cores_v(args@)),
        CoreExpr::Lambda(n, b) => CoreV::Lambda(n, Box::new(core_v(*b))),
    }
}

pub open spec fn cores_v(s: Seq<CoreExpr>) -> Seq<CoreV>
    decreases s, 0nat,
{
    Seq::new(s.len(), |i: int| if 0 <= i < s.len() { core_v(s[i]) } else { CoreV::Var(0) })
}

impl View for CoreExpr {
    type V = CoreV;

    open spec fn view(&self) -> CoreV {
        core_v(*self)
    }
}

/// The lifted form of `e`: an application lists its arguments from the
/// outermost one in, after the lifted head; a lambda counts the lambdas
/// directly nested in it.
pub open spec fn lift(e: Expr) -> CoreV
    decreases e, 0nat,
{
    match e {
        Expr::Var(v) => CoreV::Var(v),
        Expr::App(l, r) => CoreV::App(Box::new(lift_head(*l)), seq![lift(*r)] + args_of(*l)),
        Expr::Lambda(inner) => CoreV::Lambda((1 + lam_count(*inner)) as usize, Box::new(lam_body(*inner))),
    }
}

/// The lifted head of an application spine.
pub open spec fn lift_head(e: Expr) -> CoreV
    decreases e, 1nat,
{
    match e {
        Expr::App(l, _) => lift_head(*l),
        _ => lift(e),
    }
}

/// The lifted arguments of an application spine, outermost first.
pub open spec fn args_of(e: Expr) -> Seq<CoreV>
    decreases e, 1nat,
{
    match e {
        Expr::App(l, r) => seq![lift(*r)] + args_of(*l),
        _ => Seq::empty(),
    }
}

/// The number of lambdas at the top of `e`.
pub open spec fn lam_count(e: Expr) -> nat
    decreases e,
{
    match e {
        Expr::Lambda(i) => 1 + lam_count(*i),
        _ => 0,
    }
}

/// The lifted body under the lambdas at the top of `e`.
pub open spec fn lam_body(e: Expr) -> CoreV
    decreases e, 1nat,
{
    match e {
        Expr::Lambda(i) => lam_body(*i),
        _ => lift(e),
    }
}

/// The lifted form of `expr`, as `lift` says. The number of nested lambdas
/// must fit in a `usize`.
pub fn lift_expr(expr: Expr) -> (r: CoreExpr)
    requires
        lam_fits(expr),
    ensures
        r@ == lift(expr),
    decreases expr,
{
    let ghost e0 = expr;
    match expr {
        Expr::Var(var) => CoreExpr::Var(var),
        Expr::App(left, right) => {
            let ghost lv = *left;
            let mut lambda = *left;
            let right_lifted = lift_expr(*right);
            let mut args: Vec<CoreExpr> = Vec::new();
            args.push(right_lifted);
            proof {
                assert(decreases_to!(e0 => lv));
            }
            loop
                invariant
                    e0 == expr,
                    decreases_to!(e0 => lambda),
                    lam_fits(lambda),
                    lift_head(lv) == lift_head(lambda),
                    seq![lift(*right)] + args_of(lv) == cores_v(args@) + args_of(lambda),
                ensures
                    !(lambda is App),
                decreases lambda,
            {
                match lambda {
                    Expr::App(l, r) => {
                        let ghost before = args@;
                        let ghost lam = Expr::App(l, r);
                        proof {
                            assert(decreases_to!(lam => *r));
                            assert(decreases_to!(lam => *l));
                            assert(decreases_to!(e0 => *r));
                            assert(decreases_to!(e0 => *l));
                        }
                        lambda = *l;
                        let rl = lift_expr(*r);
                        args.push(rl);
                        proof {
                            assert(cores_v(args@) =~= cores_v(before).push(lift(*r)));
                            assert(args_of(lam) == seq![lift(*r)] + args_of(*l));
                            assert(cores_v(before) + args_of(lam) =~= cores_v(args@) + args_of(*l));
                        }
                    },
                    other => {
                        lambda = other;
                        break;
                    },
                }
            }
            proof {
                assert(args_of(lambda) =~= Seq::<CoreV>::empty());
                assert(cores_v(args@) + Seq::<CoreV>::empty() =~= cores_v(args@));
            }
            let core_lambda = lift_expr(lambda);
            let r = CoreExpr::App(Box::new(core_lambda), args);
            proof {
                assert(r@ == CoreV::App(Box::new(core_lambda@), cores_v(args@)));
            }
            r
        },
        Expr::Lambda(inner) => {
            let ghost iv = *inner;
            let mut num_args: usize = 1;
            let mut body = *inner;
            loop
                invariant
                    e0 == expr,
                    decreases_to!(e0 => body),
                    lam_fits(body),
                    num_args + lam_count(body) == 1 + lam_count(iv),
                    lam_count(iv) < usize::MAX,
                    lam_body(iv) == lam_body(body),
                ensures
                    !(body is Lambda),
                decreases body,
            {
                match body {
                    Expr::Lambda(i) => {
                        proof {
                            let b = Expr::Lambda(i);
                            assert(decreases_to!(b => *i));
                            assert(decreases_to!(e0 => *i));
                        }
                        body = *i;
                        num_args = num_args + 1;
                    },
                    other => {
                        body = other;
                        break;
                    },
                }
            }
            let core_body = lift_expr(body);
            CoreExpr::Lambda(num_args, Box::new(core_body))
        },
    }
}

/// Every run of nested lambdas in `e` is shorter than `usize::MAX`.
pub open spec fn lam_fits(e: Expr) -> bool
    decreases e,
{
    match e {
        Expr::Var(_) => true,
        Expr::App(l, r) => lam_fits(*l) && lam_fits(*r),
        Expr::Lambda(i) => lam_count(*i) < usize::MAX && lam_fits(*i),
    }
}

/// A function's instructions with the values it captured.
#[derive(Debug)]
pub struct Closure {
    pub code: Vec<Instruction>,
    pub env: Vec<Atom>,
}

/// A value of the machine.
#[derive(Debug)]
pub enum Atom {
    Int(i32),
    Closure(Box<Closure>),
}

/// A call in progress: its local values, its code and where it stands.
#[derive(Debug)]
pub struct Frame {
    pub locals: Vec<Atom>,
    pub code: Vec<Instruction>,
    pub pc: usize,
}

/// The machine: the operand stack that instructions work on, and the
/// call stack.
#[derive(Debug)]
pub struct VM {
    pub operand_stack: Vec<Atom>,
    pub call_stack: Vec<Frame>,
}

pub enum AtomV {
    Int(i32),
    Closure(Seq<Instruction>, Seq<AtomV>),
}

pub open spec fn atom_v(a: Atom) -> AtomV
    decreases a, 1nat,
{
    match a {
        Atom::Int(n) => AtomV::Int(n),
        Atom::Closure(c) => AtomV::Closure(c.code@, atoms_v(c.env@)),
    }
}

pub open spec fn atoms_v(s: Seq<Atom>) -> Seq<AtomV>
    decreases s, 0nat,
{
    Seq::new(s.len(), |i: int| if 0 <= i < s.len() { atom_v(s[i]) } else { AtomV::Int(0) })
}

impl View for Atom {
    type V = AtomV;

    open spec fn view(&self) -> AtomV {
        atom_v(*self)
    }
}

pub struct FrameV {
    pub locals: Seq<AtomV>,
    pub code: Seq<Instruction>,
    pub pc: usize,
}

pub open spec fn frame_v(f: Frame) -> FrameV {
    FrameV { locals: atoms_v(f.locals@), code: f.code@, pc: f.pc }
}

pub struct VMV {
    pub operand_stack: Seq<AtomV>,
    pub call_stack: Seq<FrameV>,
}

impl View for VM {
    type V = VMV;

    open spec fn view(&self) -> VMV {
        VMV { operand_stack: atoms_v(self.operand_stack@), call_stack: self.call_stack@.map_values(|f: Frame| frame_v(f)) }
    }
}

/// What one step asks of the machine besides itself: the stack holds the
/// operands the instruction takes, of the kinds it takes, a local that is
/// read exists, and a sum fits in an `i32`.
pub open spec fn step_ok(vm: VMV, instr: Instruction) -> bool {
    let st = vm.operand_stack;
    match instr {
        Instruction::LocalGet(i) => vm.call_stack.len() > 0 && i < vm.call_stack.last().locals.len(),
        Instruction::I32Const(_) => true,
        Instruction::Call(n) | Instruction::MakeClosure(n) => st.len() > 0 && st.last() is Closure && n <= st.len() - 1,
        Instruction::Return => true,
        Instruction::I32Add => st.len() >= 2 && st.last() is Int && st[st.len() - 2] is Int && i32::MIN <= st[st.len()
            - 2]->Int_0 + st.last()->Int_0 <= i32::MAX,
        Instruction::Print => st.len() > 0,
    }
}

/// What a step does apart from the machine: nothing, print a value, or
/// end the program.
pub enum Step {
    Continue,
    Print(Atom),
    Halt,
}

pub enum StepV {
    Continue,
    Print(AtomV),
    Halt,
}

pub open spec fn step_v(s: Step) -> StepV {
    match s {
        Step::Continue => StepV::Continue,
        Step::Print(a) => StepV::Print(a@),
        Step::Halt => StepV::Halt,
    }
}

/// One step of the machine on instruction `instrs[pc]`: the next machine,
/// the code and position it goes on with, and what the step does apart
/// from the machine. A call runs the callee's code from its start with the
/// captured values followed by the top `n` operands as locals; a return
/// goes back to the code of the frame it removes, from that frame's
/// recorded position, and ends the program when no frame is left. An
/// addition and a print do not advance the position.
pub open spec fn step_spec(vm: VMV, instrs: Seq<Instruction>, pc: int) -> (VMV, Seq<Instruction>, int, StepV) {
    let st = vm.operand_stack;
    match instrs[pc] {
        Instruction::LocalGet(i) => (
            VMV { operand_stack: st.push(vm.call_stack.last().locals[i as int]), ..vm },
            instrs,
            pc + 1,
            StepV::Continue,
        ),
        Instruction::I32Const(n) => (VMV { operand_stack: st.push(AtomV::Int(n)), ..vm }, instrs, pc + 1, StepV::Continue),
        Instruction::Call(n) => {
            let rest = st.drop_last();
            let k = rest.len() - n;
            let frame = FrameV {
                locals: st.last()->Closure_1 + rest.subrange(k, rest.len() as int),
                code: st.last()->Closure_0,
                pc: 0,
            };
            (
                VMV { operand_stack: rest.subrange(0, k), call_stack: vm.call_stack.push(frame) },
                st.last()->Closure_0,
                0,
                StepV::Continue,
            )
        },
        Instruction::MakeClosure(n) => {
            let rest = st.drop_last();
            let k = rest.len() - n;
            let c = AtomV::Closure(st.last()->Closure_0, st.last()->Closure_1 + rest.subrange(k, rest.len() as int));
            (VMV { operand_stack: rest.subrange(0, k).push(c), ..vm }, instrs, pc + 1, StepV::Continue)
        },
        Instruction::Return => if vm.call_stack.len() > 0 {
            let f = vm.call_stack.last();
            (VMV { call_stack: vm.call_stack.drop_last(), ..vm }, f.code, f.pc as int, StepV::Continue)
        } else {
            (vm, instrs, pc, StepV::Halt)
        },
        Instruction::I32Add => {
            let b = st.last()->Int_0;
            let a = st[st.len() - 2]->Int_0;
            (
                VMV { operand_stack: st.drop_last().drop_last().push(AtomV::Int((a + b) as i32)), ..vm },
                instrs,
                pc,
                StepV::Continue,
            )
        },
        Instruction::Print => (VMV { operand_stack: st.drop_last(), ..vm }, instrs, pc, StepV::Print(st.last())),
    }
}

fn clone_code(v: &Vec<Instruction>) -> (r: Vec<Instruction>)
    ensures
        r@ == v@,
{
    let mut r: Vec<Instruction> = Vec::new();
    let mut i: usize = 0;
    while i < v.len()
        invariant
            i <= v@.len(),
            r@ == v@.take(i as int),
        decreases v@.len() - i,
    {
        r.push(v[i]);
        i = i + 1;
        assert(r@ =~= v@.take(i as int));
    }
    assert(v@.take(v@.len() as int) =~= v@);
    r
}

/// A copy of a value.
#[verifier::loop_isolation(false)]
pub fn clone_atom(a: &Atom) -> (r: Atom)
    ensures
        r@ == a@,
    decreases a@,
{
    match a {
        Atom::Int(n) => Atom::Int(*n),
        Atom::Closure(c) => {
            let mut env: Vec<Atom> = Vec::new();
            let mut i: usize = 0;
            while i < c.env.len()
                invariant
                    i <= c.env@.len(),
                    env@.len() == i,
                    forall|j: int| 0 <= j < i ==> #[trigger] env@[j]@ == c.env@[j]@,
                decreases c.env@.len() - i,
            {
                proof {
                    let s = atoms_v(c.env@);
                    assert(a@ == AtomV::Closure(c.code@, s));
                    assert(s[i as int] == c.env@[i as int]@);
                    assert(a@->Closure_1 == s);
                    assert(decreases_to!(a@ => a@->Closure_1));
                    assert(decreases_to!(s => s[i as int]));
                }
                env.push(clone_atom(&c.env[i]));
                i = i + 1;
            }
            assert forall|j: int| 0 <= j < c.env@.len() implies #[trigger] atoms_v(env@)[j] == atoms_v(c.env@)[j] by {
                assert(env@[j]@ == c.env@[j]@);
            }
            assert(atoms_v(env@) =~= atoms_v(c.env@));
            Atom::Closure(Box::new(Closure { code: clone_code(&c.code), env }))
        },
    }
}

proof fn lemma_atoms_push(s: Seq<Atom>, x: Atom)
    ensures
        atoms_v(s.push(x)) == atoms_v(s).push(x@),
{
    assert(atoms_v(s.push(x)) =~= atoms_v(s).push(x@));
}

proof fn lemma_atoms_drop_last(s: Seq<Atom>)
    requires
        s.len() > 0,
    ensures
        atoms_v(s.drop_last()) == atoms_v(s).drop_last(),
        atoms_v(s).last() == s.last()@,
{
    assert(atoms_v(s.drop_last()) =~= atoms_v(s).drop_last());
}

proof fn lemma_atoms_split(s: Seq<Atom>, k: int)
    requires
        0 <= k <= s.len(),
    ensures
        atoms_v(s.subrange(0, k)) == atoms_v(s).subrange(0, k),
        atoms_v(s.subrange(k, s.len() as int)) == atoms_v(s).subrange(k, s.len() as int),
{
    assert(atoms_v(s.subrange(0, k)) =~= atoms_v(s).subrange(0, k));
    assert(atoms_v(s.subrange(k, s.len() as int)) =~= atoms_v(s).subrange(k, s.len() as int));
}

proof fn lemma_atoms_append(a: Seq<Atom>, b: Seq<Atom>)
    ensures
        atoms_v(a + b) == atoms_v(a) + atoms_v(b),
{
    assert(atoms_v(a + b) =~= atoms_v(a) + atoms_v(b));
}

impl VM {
    /// A machine with empty stacks.
    pub fn new() -> (vm: Self)
        ensures
            vm@.operand_stack == Seq::<AtomV>::empty(),
            vm@.call_stack == Seq::<FrameV>::empty(),
    {
        let vm = VM { operand_stack: Vec::new(), call_stack: Vec::new() };
        assert(vm@.operand_stack =~= Seq::<AtomV>::empty());
        assert(vm@.call_stack =~= Seq::<FrameV>::empty());
        vm
    }

    /// Whether the step on `instrs[pc]` can be taken, as `step_ok` says.
    pub fn can_step(&self, instrs: &Vec<Instruction>, pc: usize) -> (r: bool)
        requires
            pc < instrs@.len(),
        ensures
            r == step_ok(self@, instrs@[pc as int]),
    {
        let st = &self.operand_stack;
        let n = st.len();
        proof {
            if n > 0 {
                lemma_atoms_drop_last(st@);
            }
        }
        match instrs[pc] {
            Instruction::LocalGet(i) => {
                let m = self.call_stack.len();
                if m == 0 {
                    return false;
                }
                let f = &self.call_stack[m - 1];
                assert(self@.call_stack.last() == frame_v(*f));
                i < f.locals.len()
            },
            Instruction::I32Const(_) => true,
            Instruction::Call(k) | Instruction::MakeClosure(k) => n > 0 && matches!(st[n - 1], Atom::Closure(_)) && k
                <= n - 1,
            Instruction::Return => true,
            Instruction::I32Add => {
                if n < 2 {
                    return false;
                }
                assert(atoms_v(st@)[n - 2] == st@[n - 2]@);
                match (&st[n - 2], &st[n - 1]) {
                    (Atom::Int(a), Atom::Int(b)) => a.checked_add(*b).is_some(),
                    _ => false,
                }
            },
            Instruction::Print => n > 0,
        }
    }

    /// One step of the machine on `instrs[*pc]`, as `step_spec` says: the
    /// machine, the code and the position become the next ones, and what
    /// the step does apart from them is returned for the caller to do.
    pub fn step(&mut self, instrs: &mut Vec<Instruction>, pc: &mut usize) -> (r: Step)
        requires
            *old(pc) < old(instrs)@.len(),
            step_ok(old(self)@, old(instrs)@[*old(pc) as int]),
        ensures
            step_spec(old(self)@, old(instrs)@, *old(pc) as int) == (final(self)@, final(instrs)@, *final(pc) as int, step_v(r)),
    {
        let ghost st0 = self.operand_stack@;
        proof {
            if st0.len() > 0 {
                lemma_atoms_drop_last(st0);
            }
        }
        let instr = instrs[*pc];
        let len = instrs.len();
        assert(*pc < len);
        match instr {
            Instruction::LocalGet(i) => {
                let m = self.call_stack.len();
                let v = clone_atom(&self.call_stack[m - 1].locals[i]);
                proof {
                    assert(self@.call_stack.last() == frame_v(self.call_stack@[m - 1]));
                    assert(atoms_v(self.call_stack@[m - 1].locals@)[i as int] == self.call_stack@[m - 1].locals@[i as int]@);
                    lemma_atoms_push(self.operand_stack@, v);
                }
                self.operand_stack.push(v);
                *pc = *pc + 1;
                Step::Continue
            },
            Instruction::I32Const(n) => {
                proof {
                    lemma_atoms_push(self.operand_stack@, Atom::Int(n));
                }
                self.operand_stack.push(Atom::Int(n));
                *pc = *pc + 1;
                Step::Continue
            },
            Instruction::Call(n) => {
                let top = self.operand_stack.pop().unwrap();
                let ghost rest = self.operand_stack@;
                let k = self.operand_stack.len() - n;
                let mut args = self.operand_stack.split_off(k);
                proof {
                    lemma_atoms_split(rest, k as int);
                }
                match top {
                    Atom::Closure(c) => {
                        let Closure { code, env } = *c;
                        let mut locals = env;
                        let ghost e0 = locals@;
                        let ghost a0 = args@;
                        locals.append(&mut args);
                        proof {
                            lemma_atoms_append(e0, a0);
                        }
                        let new_code = clone_code(&code);
                        let ghost before = self.call_stack@;
                        self.call_stack.push(Frame { locals, code, pc: 0 });
                        proof {
                            assert(self.call_stack@.map_values(|f: Frame| frame_v(f)) =~= before.map_values(
                                |f: Frame| frame_v(f),
                            ).push(frame_v(self.call_stack@.last())));
                        }
                        *instrs = new_code;
                        *pc = 0;
                        Step::Continue
                    },
                    Atom::Int(_) => {
                        proof {
                            assert(false);
                        }
                        Step::Halt
                    },
                }
            },
            Instruction::MakeClosure(n) => {
                let top = self.operand_stack.pop().unwrap();
                let ghost rest = self.operand_stack@;
                let k = self.operand_stack.len() - n;
                let mut args = self.operand_stack.split_off(k);
                proof {
                    lemma_atoms_split(rest, k as int);
                }
                match top {
                    Atom::Closure(c) => {
                        let Closure { code, env } = *c;
                        let mut env = env;
                        let ghost e0 = env@;
                        let ghost a0 = args@;
                        env.append(&mut args);
                        proof {
                            lemma_atoms_append(e0, a0);
                        }
                        let made = Atom::Closure(Box::new(Closure { code, env }));
                        proof {
                            lemma_atoms_push(self.operand_stack@, made);
                        }
                        self.operand_stack.push(made);
                        *pc = *pc + 1;
                        Step::Continue
                    },
                    Atom::Int(_) => {
                        proof {
                            assert(false);
                        }
                        Step::Halt
                    },
                }
            },
            Instruction::Return => {
                let ghost before = self.call_stack@;
                match self.call_stack.pop() {
                    Some(frame) => {
                        proof {
                            assert(self.call_stack@.map_values(|f: Frame| frame_v(f)) =~= before.map_values(
                                |f: Frame| frame_v(f),
                            ).drop_last());
                        }
                        *instrs = frame.code;
                        *pc = frame.pc;
                        Step::Continue
                    },
                    None => Step::Halt,
                }
            },
            Instruction::I32Add => {
                let b = self.operand_stack.pop().unwrap();
                let ghost mid = self.operand_stack@;
                proof {
                    lemma_atoms_drop_last(mid);
                }
                let a = self.operand_stack.pop().unwrap();
                match (a, b) {
                    (Atom::Int(x), Atom::Int(y)) => {
                        let s = Atom::Int(x + y);
                        proof {
                            lemma_atoms_push(self.operand_stack@, s);
                        }
                        self.operand_stack.push(s);
                        Step::Continue
                    },
                    _ => {
                        proof {
                            assert(false);
                        }
                        Step::Halt
                    },
                }
            },
            Instruction::Print => {
                let top = self.operand_stack.pop().unwrap();
                Step::Print(top)
            },
        }
    }
}

} // verus!
