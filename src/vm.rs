use vstd::prelude::*;

use crate::byte_code::ByteCode;
use crate::lex::{lemma_scan_pos, scan, ScanError};
use crate::parse::{at_end, chunk_spec, compile, exp_code, exp_spec, first_index, local_slot_in, local_spec, stmt_spec, with_code, Comp, Fault, LexAt, ParseProto};
use crate::token::Lexeme;
use crate::value::{bytes_copy, bytes_eq, values_view, LuaValue, Native, Value};

verus! {

/// Why execution stopped.
#[derive(Debug, Clone, Copy, PartialEq, Eq, Structural)]
pub enum ExecError {
    /// An instruction names a constant past the end of the pool.
    BadConstant,
    /// A global is named by a constant that is not a string.
    InvalidGlobalKey,
    /// A call of a value that is not a function.
    NotCallable,
    /// A write to a slot past the top of the stack.
    StackGap,
    /// A read of a slot past the top of the stack.
    BadSlot,
}

/// The machine: globals (name, value) with distinct names, the value stack,
/// and the slot of the function being called.
pub struct VmState {
    pub globals: Seq<(Seq<u8>, LuaValue)>,
    pub stack: Seq<LuaValue>,
    pub func_index: int,
}

/// The index of the global named `key`, from `i` on, or the length.
pub open spec fn find_global(g: Seq<(Seq<u8>, LuaValue)>, key: Seq<u8>, i: int) -> int
    decreases g.len() - i,
{
    if i < 0 || i >= g.len() {
        g.len() as int
    } else if g[i].0 == key {
        i
    } else {
        find_global(g, key, i + 1)
    }
}

/// The value of global `key`; an unassigned global reads as nil.
pub open spec fn global_get(g: Seq<(Seq<u8>, LuaValue)>, key: Seq<u8>) -> LuaValue {
    let i = find_global(g, key, 0);
    if i < g.len() {
        g[i].1
    } else {
        LuaValue::Nil
    }
}

pub open spec fn global_set(g: Seq<(Seq<u8>, LuaValue)>, key: Seq<u8>, v: LuaValue) -> Seq<(Seq<u8>, LuaValue)> {
    let i = find_global(g, key, 0);
    if i < g.len() {
        g.update(i, (key, v))
    } else {
        g.push((key, v))
    }
}

/// Writing slot `dst`: the top of the stack appends, a lower slot is
/// overwritten, a higher one is a gap.
pub open spec fn stack_set(st: Seq<LuaValue>, dst: int, v: LuaValue) -> Result<Seq<LuaValue>, ExecError> {
    if dst == st.len() {
        Ok(st.push(v))
    } else if 0 <= dst < st.len() {
        Ok(st.update(dst, v))
    } else {
        Err(ExecError::StackGap)
    }
}

pub open spec fn const_at(k: Seq<LuaValue>, i: int) -> Result<LuaValue, ExecError> {
    if 0 <= i < k.len() {
        Ok(k[i])
    } else {
        Err(ExecError::BadConstant)
    }
}

/// The global name held by constant `i`.
pub open spec fn key_at(k: Seq<LuaValue>, i: int) -> Result<Seq<u8>, ExecError> {
    match const_at(k, i) {
        Ok(LuaValue::String(s)) => Ok(s),
        Ok(_) => Err(ExecError::InvalidGlobalKey),
        Err(e) => Err(e),
    }
}

pub open spec fn slot_at(st: Seq<LuaValue>, i: int) -> Result<LuaValue, ExecError> {
    if 0 <= i < st.len() {
        Ok(st[i])
    } else {
        Err(ExecError::BadSlot)
    }
}

pub open spec fn with_stack(m: VmState, dst: int, v: LuaValue) -> Result<(VmState, Option<LuaValue>), ExecError> {
    match stack_set(m.stack, dst, v) {
        Ok(st) => Ok((VmState { stack: st, ..m }, None)),
        Err(e) => Err(e),
    }
}

pub open spec fn with_global(m: VmState, key: Result<Seq<u8>, ExecError>, v: Result<LuaValue, ExecError>) -> Result<(VmState, Option<LuaValue>), ExecError> {
    match key {
        Err(e) => Err(e),
        Ok(key) => match v {
            Err(e) => Err(e),
            Ok(v) => Ok((VmState { globals: global_set(m.globals, key, v), ..m }, None)),
        },
    }
}

/// One instruction against pool `k`: the next state, and the value printed
/// if the instruction called `print`.
pub open spec fn step_spec(m: VmState, k: Seq<LuaValue>, code: ByteCode) -> Result<(VmState, Option<LuaValue>), ExecError> {
    match code {
        ByteCode::GetGlobal(dst, name) => match key_at(k, name as int) {
            Ok(key) => with_stack(m, dst as int, global_get(m.globals, key)),
            Err(e) => Err(e),
        },
        ByteCode::SetGlobal(name, src) => with_global(m, key_at(k, name as int), slot_at(m.stack, src as int)),
        ByteCode::SetGlobalGlobal(name, src) => match key_at(k, src as int) {
            Ok(skey) => with_global(m, key_at(k, name as int), Ok(global_get(m.globals, skey))),
            Err(e) => Err(e),
        },
        ByteCode::SetGlobalConst(name, c) => with_global(m, key_at(k, name as int), const_at(k, c as int)),
        ByteCode::LocalConst(dst, c) => match const_at(k, c as int) {
            Ok(v) => with_stack(m, dst as int, v),
            Err(e) => Err(e),
        },
        ByteCode::LoadNil(dst) => with_stack(m, dst as int, LuaValue::Nil),
        ByteCode::LoadBool(dst, b) => with_stack(m, dst as int, LuaValue::Boolean(b)),
        ByteCode::LoadInt(dst, i) => with_stack(m, dst as int, LuaValue::Integer(i as i64)),
        ByteCode::Move(dst, src) => match slot_at(m.stack, src as int) {
            Ok(v) => with_stack(m, dst as int, v),
            Err(e) => Err(e),
        },
        ByteCode::Call(f, _) => match slot_at(m.stack, f as int) {
            Ok(LuaValue::Function(Native::Print)) => match slot_at(m.stack, f + 1) {
                Ok(arg) => Ok((VmState { func_index: f as int, ..m }, Some(arg))),
                Err(e) => Err(e),
            },
            Ok(_) => Err(ExecError::NotCallable),
            Err(e) => Err(e),
        },
    }
}

/// What running instructions `i..` does: the final state, what was printed,
/// and the error that stopped the run, if any.
pub struct RunOut {
    pub state: VmState,
    pub printed: Seq<LuaValue>,
    pub fault: Option<ExecError>,
}

pub open spec fn run_from(m: VmState, k: Seq<LuaValue>, codes: Seq<ByteCode>, i: int) -> RunOut
    decreases codes.len() - i,
{
    if i < 0 || i >= codes.len() {
        RunOut { state: m, printed: Seq::empty(), fault: None }
    } else {
        match step_spec(m, k, codes[i]) {
            Err(e) => RunOut { state: m, printed: Seq::empty(), fault: Some(e) },
            Ok((m2, out)) => {
                let rest = run_from(m2, k, codes, i + 1);
                let printed = match out {
                    Some(v) => seq![v] + rest.printed,
                    None => rest.printed,
                };
                RunOut { state: rest.state, printed, fault: rest.fault }
            },
        }
    }
}

/// The state a run starts from: `print` is the only global.
pub open spec fn initial_state() -> VmState {
    VmState {
        globals: seq![(seq!['p' as u8, 'r' as u8, 'i' as u8, 'n' as u8, 't' as u8], LuaValue::Function(Native::Print))],
        stack: Seq::empty(),
        func_index: 0,
    }
}

proof fn lemma_find_global(g: Seq<(Seq<u8>, LuaValue)>, key: Seq<u8>, i: int)
    requires
        0 <= i <= g.len(),
    ensures
        i <= find_global(g, key, i) <= g.len(),
        find_global(g, key, i) < g.len() ==> g[find_global(g, key, i)].0 == key,
        forall|j: int| i <= j < find_global(g, key, i) ==> g[j].0 != key,
    decreases g.len() - i,
{
    if i < g.len() && g[i].0 != key {
        lemma_find_global(g, key, i + 1);
    }
}

proof fn lemma_find_global_same(g: Seq<(Seq<u8>, LuaValue)>, h: Seq<(Seq<u8>, LuaValue)>, key: Seq<u8>, i: int)
    requires
        0 <= i <= g.len(),
        g.len() <= h.len(),
        forall|j: int| i <= j < g.len() ==> h[j].0 == g[j].0,
        find_global(g, key, i) < g.len(),
    ensures
        find_global(h, key, i) == find_global(g, key, i),
    decreases g.len() - i,
{
    if g[i].0 != key {
        lemma_find_global_same(g, h, key, i + 1);
    }
}

/// A global reads back what was last stored into it, whatever the table
/// held before; a name never stored reads as nil.
pub proof fn lemma_global_round_trip(g: Seq<(Seq<u8>, LuaValue)>, key: Seq<u8>, v: LuaValue)
    ensures
        global_get(global_set(g, key, v), key) == v,
        find_global(g, key, 0) == g.len() ==> global_get(g, key) == LuaValue::Nil,
{
    lemma_find_global(g, key, 0);
    let i = find_global(g, key, 0);
    let h = global_set(g, key, v);
    if i < g.len() {
        lemma_find_global_same(g, h, key, 0);
    } else {
        assert(g.push((key, v)) == h);
        lemma_find_global(h, key, 0);
        assert(h[g.len() as int].0 == key);
        if find_global(h, key, 0) < g.len() {
            assert(h[find_global(h, key, 0)] == g[find_global(h, key, 0)]);
        }
    }
}

/// No two globals share a name.
pub open spec fn distinct_names(g: Seq<(Seq<u8>, LuaValue)>) -> bool {
    forall|i: int, j: int| 0 <= i < j < g.len() ==> g[i].0 != g[j].0
}

/// What every state of a run satisfies.
pub open spec fn state_ok(m: VmState) -> bool {
    distinct_names(m.globals) && m.func_index >= 0
}

proof fn lemma_global_set_distinct(g: Seq<(Seq<u8>, LuaValue)>, key: Seq<u8>, v: LuaValue)
    requires
        distinct_names(g),
    ensures
        distinct_names(global_set(g, key, v)),
{
    lemma_find_global(g, key, 0);
    let h = global_set(g, key, v);
    assert forall|i: int, j: int| 0 <= i < j < h.len() implies h[i].0 != h[j].0 by {
        if j == g.len() {
            assert(h[j].0 == key);
            assert(h[i] == g[i]);
        }
    }
}

proof fn lemma_step_ok(m: VmState, k: Seq<LuaValue>, code: ByteCode)
    requires
        state_ok(m),
    ensures
        step_spec(m, k, code) is Ok ==> state_ok(step_spec(m, k, code)->Ok_0.0),
{
    assert forall|key: Seq<u8>, v: LuaValue| distinct_names(#[trigger] global_set(m.globals, key, v)) by {
        lemma_global_set_distinct(m.globals, key, v);
    }
}

proof fn lemma_run_ok(m: VmState, k: Seq<LuaValue>, codes: Seq<ByteCode>, i: int)
    requires
        state_ok(m),
    ensures
        state_ok(run_from(m, k, codes, i).state),
    decreases codes.len() - i,
{
    if 0 <= i < codes.len() {
        lemma_step_ok(m, k, codes[i]);
        if let Ok((m2, _)) = step_spec(m, k, codes[i]) {
            lemma_run_ok(m2, k, codes, i + 1);
        }
    }
}

/// The value a literal token stands for.
pub open spec fn literal_value(t: Lexeme) -> Option<LuaValue> {
    match t {
        Lexeme::Nil => Some(LuaValue::Nil),
        Lexeme::True => Some(LuaValue::Boolean(true)),
        Lexeme::False => Some(LuaValue::Boolean(false)),
        Lexeme::Integer(i) => Some(LuaValue::Integer(i)),
        Lexeme::Float(f) => Some(LuaValue::Float(f)),
        Lexeme::String(s) => Some(LuaValue::String(s)),
        _ => None,
    }
}

/// Every literal survives compiling and running: the instruction that
/// `local x = <literal>` emits into a fresh program, run from the initial
/// state, leaves the literal's value in slot 0 and nothing else on the stack.
pub proof fn lemma_literal_round_trip(t: Lexeme)
    requires
        literal_value(t) is Some,
    ensures
        ({
            let c0 = Comp { consts: Seq::empty(), codes: Seq::empty(), locals: Seq::empty() };
            match exp_code(c0, t, 0) {
                Ok((k, code)) => {
                    let run = run_from(initial_state(), k, seq![code], 0);
                    run.fault is None && run.state.stack == seq![literal_value(t)->Some_0]
                },
                Err(_) => false,
            }
        }),
{
    let c0 = Comp { consts: Seq::<LuaValue>::empty(), codes: Seq::empty(), locals: Seq::empty() };
    let v = literal_value(t)->Some_0;
    assert(first_index(Seq::<LuaValue>::empty(), v, 0) == 0);
    assert(local_slot_in(c0.locals, Seq::<u8>::empty(), 0) is None);
    match exp_code(c0, t, 0) {
        Ok((k, code)) => {
            let m = initial_state();
            assert(step_spec(m, k, code) is Ok);
            let m2 = step_spec(m, k, code)->Ok_0.0;
            assert(m2.stack =~= seq![v]);
            assert(run_from(m2, k, seq![code], 1).state == m2);
        },
        Err(_) => {},
    }
}

/// Whether scanning `s` from `i` gives the tokens `ts` and then the end of
/// input.
pub open spec fn scans_to(s: Seq<u8>, i: int, ts: Seq<Lexeme>) -> bool
    decreases ts.len(),
{
    if ts.len() == 0 {
        scan(s, i).0 == Ok::<Lexeme, ScanError>(Lexeme::EOF)
    } else {
        scan(s, i).0 == Ok::<Lexeme, ScanError>(ts[0]) && scans_to(s, scan(s, i).1, ts.drop_first())
    }
}

proof fn lemma_scans_to_four(s: Seq<u8>, a: Lexeme, b: Lexeme, c: Lexeme, d: Lexeme)
    requires
        scans_to(s, 0, seq![a, b, c, d]),
    ensures
        ({
            let p1 = scan(s, 0).1;
            let p2 = scan(s, p1).1;
            let p3 = scan(s, p2).1;
            let p4 = scan(s, p3).1;
            &&& scan(s, 0).0 == Ok::<Lexeme, ScanError>(a)
            &&& scan(s, p1).0 == Ok::<Lexeme, ScanError>(b)
            &&& scan(s, p2).0 == Ok::<Lexeme, ScanError>(c)
            &&& scan(s, p3).0 == Ok::<Lexeme, ScanError>(d)
            &&& scan(s, p4).0 == Ok::<Lexeme, ScanError>(Lexeme::EOF)
        }),
{
    let ts = seq![a, b, c, d];
    let p1 = scan(s, 0).1;
    let p2 = scan(s, p1).1;
    let p3 = scan(s, p2).1;
    assert(ts.drop_first() =~= seq![b, c, d]);
    assert(scans_to(s, p1, seq![b, c, d]));
    assert(seq![b, c, d].drop_first() =~= seq![c, d]);
    assert(scans_to(s, p2, seq![c, d]));
    assert(seq![c, d].drop_first() =~= seq![d]);
    assert(scans_to(s, p3, seq![d]));
    assert(seq![d].drop_first() =~= Seq::<Lexeme>::empty());
    let p4 = scan(s, p3).1;
    assert(scans_to(s, p4, Seq::<Lexeme>::empty()));
    assert(ts[0] == a && seq![b, c, d][0] == b && seq![c, d][0] == c && seq![d][0] == d);
}

/// Every literal survives compiling and running source text: a source that
/// scans as `local x = <literal>` compiles, and running it from the initial
/// state leaves exactly the literal's value on the stack, in slot 0.
#[verifier::rlimit(100)]
pub proof fn lemma_source_literal_round_trip(s: Seq<u8>, x: Seq<u8>, t: Lexeme)
    requires
        literal_value(t) is Some,
        scans_to(s, 0, seq![Lexeme::Local, Lexeme::Name(x), Lexeme::Assign, t]),
    ensures
        compile(s) is Ok,
        ({
            let p = compile(s)->Ok_0;
            let run = run_from(initial_state(), p.consts, p.codes, 0);
            run.fault is None && run.state.stack == seq![literal_value(t)->Some_0]
        }),
{
    lemma_scans_to_four(s, Lexeme::Local, Lexeme::Name(x), Lexeme::Assign, t);
    let p1 = scan(s, 0).1;
    let p2 = scan(s, p1).1;
    let p3 = scan(s, p2).1;
    let p4 = scan(s, p3).1;
    lemma_scan_pos(s, p4);
    let c0 = Comp { consts: Seq::<LuaValue>::empty(), codes: Seq::empty(), locals: Seq::empty() };
    lemma_literal_round_trip(t);
    let (k, code) = exp_code(c0, t, 0)->Ok_0;
    let c1 = Comp { consts: k, codes: seq![code], locals: seq![x] };
    assert(with_code(c0, k, code).codes =~= seq![code]);
    assert(c0.locals.push(x) =~= seq![x]);
    assert(exp_spec(s, (p3, None), c0, 0) == Ok::<(Comp, LexAt), Fault>((with_code(c0, k, code), (p4, None))));
    assert(local_spec(s, (p1, None), c0) == Ok::<(Comp, LexAt), Fault>((c1, (p4, None))));
    assert(stmt_spec(s, (0, None), c0) == Ok::<(Comp, LexAt), Fault>((c1, (p4, None))));
    assert(stmt_spec(s, (p4, None), c1) == Ok::<(Comp, LexAt), Fault>((c1, (s.len() as int, None))));
    assert(at_end(s, (p4, None)));
    assert(chunk_spec(s, (p4, None), c1) == Ok::<Comp, Fault>(c1));
    assert(!at_end(s, (0, None)));
    assert(chunk_spec(s, (0, None), c0) == chunk_spec(s, (p4, None), c1));
}

/// The execution state of one run.
#[derive(Debug)]
pub struct ExeState {
    global: Vec<(Vec<u8>, Value)>,
    stack: Vec<Value>,
    func_index: usize,
}

impl Default for ExeState {
    fn default() -> (r: Self)
        ensures
            r.model() == initial_state(),
            state_ok(r.model()),
    {
        Self::new()
    }
}

impl ExeState {
    pub closed spec fn model(&self) -> VmState {
        VmState {
            globals: self.global@.map_values(|p: (Vec<u8>, Value)| (p.0@, p.1@)),
            stack: values_view(self.stack@),
            func_index: self.func_index as int,
        }
    }

    pub fn new() -> (r: Self)
        ensures
            r.model() == initial_state(),
            state_ok(r.model()),
    {
        let name: Vec<u8> = vec!['p' as u8, 'r' as u8, 'i' as u8, 'n' as u8, 't' as u8];
        let mut global: Vec<(Vec<u8>, Value)> = Vec::new();
        global.push((name, Value::Function(Native::Print)));
        let r = ExeState { global, stack: Vec::new(), func_index: 0 };
        assert(r.model().globals =~= initial_state().globals);
        assert(r.model().stack =~= initial_state().stack);
        r
    }

    /// The value in slot `i`, if the stack reaches it.
    pub fn stack_value(&self, i: usize) -> (r: Option<Value>)
        ensures
            match slot_at(self.model().stack, i as int) {
                Ok(v) => r is Some && r->Some_0@ == v,
                Err(_) => r is None,
            },
    {
        match self.slot(i) {
            Ok(v) => Some(v),
            Err(_) => None,
        }
    }

    pub fn stack_len(&self) -> (r: usize)
        ensures
            r == self.model().stack.len(),
    {
        self.stack.len()
    }

    /// Writes `v` into slot `dst`.
    pub fn set_stack(&mut self, dst: u8, v: Value) -> (r: Result<(), ExecError>)
        ensures
            0 <= final(self).model().func_index,
            match stack_set(old(self).model().stack, dst as int, v@) {
                Ok(st) => r is Ok && final(self).model() == (VmState { stack: st, ..old(self).model() }),
                Err(e) => r == Err::<(), ExecError>(e) && final(self).model() == old(self).model(),
            },
    {
        let dst = dst as usize;
        let ghost vv = v@;
        let ghost before = self.model();
        if dst == self.stack.len() {
            self.stack.push(v);
            assert(self.model().stack =~= before.stack.push(vv));
            Ok(())
        } else if dst < self.stack.len() {
            self.stack.set(dst, v);
            assert(self.model().stack =~= before.stack.update(dst as int, vv));
            Ok(())
        } else {
            Err(ExecError::StackGap)
        }
    }

    fn slot(&self, i: usize) -> (r: Result<Value, ExecError>)
        ensures
            match slot_at(self.model().stack, i as int) {
                Ok(v) => r is Ok && r->Ok_0@ == v,
                Err(e) => r == Err::<Value, ExecError>(e),
            },
    {
        if i < self.stack.len() {
            Ok(self.stack[i].copy())
        } else {
            Err(ExecError::BadSlot)
        }
    }

    fn find(&self, key: &Vec<u8>) -> (r: usize)
        ensures
            r == find_global(self.model().globals, key@, 0),
    {
        let mut i: usize = 0;
        while i < self.global.len() && !bytes_eq(&self.global[i].0, key)
            invariant
                i <= self.global.len(),
                find_global(self.model().globals, key@, i as int) == find_global(self.model().globals, key@, 0),
            decreases self.global.len() - i,
        {
            i += 1;
        }
        i
    }

    /// The value of the global named `key`; nil if it was never assigned.
    pub fn get_global(&self, key: &Vec<u8>) -> (r: Value)
        ensures
            r@ == global_get(self.model().globals, key@),
    {
        let i = self.find(key);
        if i < self.global.len() {
            self.global[i].1.copy()
        } else {
            Value::Nil
        }
    }

    fn set_global(&mut self, key: Vec<u8>, v: Value)
        ensures
            final(self).model() == (VmState { globals: global_set(old(self).model().globals, key@, v@), ..old(self).model() }),
    {
        let i = self.find(&key);
        let ghost before = self.model();
        let ghost entry = (key@, v@);
        if i < self.global.len() {
            self.global.set(i, (key, v));
            assert(self.model().globals =~= before.globals.update(i as int, entry));
        } else {
            self.global.push((key, v));
            assert(self.model().globals =~= before.globals.push(entry));
        }
    }
    /// Runs one instruction against constant pool `k`; what `print` was
    /// handed, if the instruction called it. On an error nothing changes.
    #[verifier::rlimit(60)]
    fn step(&mut self, k: &Vec<Value>, code: ByteCode) -> (r: Result<Option<Value>, ExecError>)
        ensures
            match step_spec(old(self).model(), values_view(k@), code) {
                Ok((m2, out)) => r is Ok && final(self).model() == m2 && value_opt(r->Ok_0) == out,
                Err(e) => r == Err::<Option<Value>, ExecError>(e) && final(self).model() == old(self).model(),
            },
    {
        match code {
            ByteCode::GetGlobal(dst, name) => {
                let key = match const_key(k, name) {
                    Ok(key) => key,
                    Err(e) => return Err(e),
                };
                let v = self.get_global(&key);
                match self.set_stack(dst, v) {
                    Ok(()) => Ok(None),
                    Err(e) => Err(e),
                }
            },
            ByteCode::SetGlobal(name, src) => {
                let key = match const_key(k, name) {
                    Ok(key) => key,
                    Err(e) => return Err(e),
                };
                let v = match self.slot(src as usize) {
                    Ok(v) => v,
                    Err(e) => return Err(e),
                };
                self.set_global(key, v);
                Ok(None)
            },
            ByteCode::SetGlobalGlobal(name, src) => {
                let skey = match const_key(k, src) {
                    Ok(key) => key,
                    Err(e) => return Err(e),
                };
                let key = match const_key(k, name) {
                    Ok(key) => key,
                    Err(e) => return Err(e),
                };
                let v = self.get_global(&skey);
                self.set_global(key, v);
                Ok(None)
            },
            ByteCode::SetGlobalConst(name, c) => {
                let key = match const_key(k, name) {
                    Ok(key) => key,
                    Err(e) => return Err(e),
                };
                let v = match const_value(k, c) {
                    Ok(v) => v,
                    Err(e) => return Err(e),
                };
                self.set_global(key, v);
                Ok(None)
            },
            ByteCode::LocalConst(dst, c) => {
                let v = match const_value(k, c) {
                    Ok(v) => v,
                    Err(e) => return Err(e),
                };
                match self.set_stack(dst, v) {
                    Ok(()) => Ok(None),
                    Err(e) => Err(e),
                }
            },
            ByteCode::LoadNil(dst) => match self.set_stack(dst, Value::Nil) {
                Ok(()) => Ok(None),
                Err(e) => Err(e),
            },
            ByteCode::LoadBool(dst, b) => match self.set_stack(dst, Value::Boolean(b)) {
                Ok(()) => Ok(None),
                Err(e) => Err(e),
            },
            ByteCode::LoadInt(dst, i) => match self.set_stack(dst, Value::Integer(i as i64)) {
                Ok(()) => Ok(None),
                Err(e) => Err(e),
            },
            ByteCode::Move(dst, src) => {
                let v = match self.slot(src as usize) {
                    Ok(v) => v,
                    Err(e) => return Err(e),
                };
                match self.set_stack(dst, v) {
                    Ok(()) => Ok(None),
                    Err(e) => Err(e),
                }
            },
            ByteCode::Call(f, _) => {
                let func = match self.slot(f as usize) {
                    Ok(v) => v,
                    Err(e) => return Err(e),
                };
                match func {
                    Value::Function(Native::Print) => {
                        let saved = self.func_index;
                        self.func_index = f as usize;
                        match lib_print(self) {
                            Ok(v) => Ok(Some(v)),
                            Err(e) => {
                                self.func_index = saved;
                                Err(e)
                            },
                        }
                    },
                    _ => Err(ExecError::NotCallable),
                }
            },
        }
    }

    /// Runs the program's instructions in order, appending to `out` each
    /// value handed to `print`, and stops at the first error.
    pub fn execute(&mut self, proto: &ParseProto, out: &mut Vec<Value>) -> (r: Result<(), ExecError>)
        requires
            state_ok(old(self).model()),
        ensures
            state_ok(final(self).model()),
            ({
                let run = run_from(old(self).model(), proto.comp().consts, proto.comp().codes, 0);
                &&& final(self).model() == run.state
                &&& values_view(final(out)@) == values_view(old(out)@) + run.printed
                &&& match r {
                    Ok(()) => run.fault is None,
                    Err(e) => run.fault == Some(e),
                }
            }),
    {
        let ghost k = proto.comp().consts;
        let ghost codes = proto.comp().codes;
        proof {
            lemma_run_ok(self.model(), k, codes, 0);
        }
        let ghost total = run_from(self.model(), k, codes, 0);
        let ghost done: Seq<LuaValue> = Seq::empty();
        let ghost out0 = values_view(out@);
        let mut i: usize = 0;
        assert(values_view(out@) =~= out0 + done);
        while i < proto.byte_codes.len()
            invariant
                i <= proto.byte_codes.len(),
                k == proto.comp().consts,
                codes == proto.comp().codes,
                values_view(out@) == out0 + done,
                out0 == values_view(old(out)@),
                total == run_from(old(self).model(), k, codes, 0),
                state_ok(total.state),
                run_from(self.model(), k, codes, i as int).state == total.state,
                run_from(self.model(), k, codes, i as int).fault == total.fault,
                done + run_from(self.model(), k, codes, i as int).printed == total.printed,
            decreases proto.byte_codes.len() - i,
        {
            let ghost m = self.model();
            let ghost rest = run_from(m, k, codes, i as int);
            match self.step(&proto.constants, proto.byte_codes[i]) {
                Ok(Some(v)) => {
                    let ghost vv = v@;
                    let ghost prev = values_view(out@);
                    let ghost done0 = done;
                    proof {
                        assert(done + rest.printed =~= done.push(vv) + run_from(self.model(), k, codes, i + 1).printed);
                        done = done.push(vv);
                    }
                    out.push(v);
                    assert(values_view(out@) =~= prev.push(vv));
                    assert(out0 + done =~= (out0 + done0).push(vv));
                },
                Ok(None) => {},
                Err(e) => {
                    assert(codes[i as int] == proto.byte_codes@[i as int]);
                    assert(step_spec(m, k, codes[i as int]) == Err::<(VmState, Option<LuaValue>), ExecError>(e));
                    assert(rest.fault == Some(e));
                    assert(rest.state == m);
                    assert(rest.printed =~= Seq::<LuaValue>::empty());
                    assert(total.printed =~= done);
                    assert(out0 + total.printed =~= out0 + done);
                    return Err(e);
                },
            }
            i += 1;
        }
        assert(total.printed =~= done);
        Ok(())
    }
}

/// `print`: the value one slot above the function being called, which the
/// caller displays.
pub fn lib_print(state: &ExeState) -> (r: Result<Value, ExecError>)
    ensures
        match slot_at(state.model().stack, state.model().func_index + 1) {
            Ok(v) => r is Ok && r->Ok_0@ == v,
            Err(e) => r == Err::<Value, ExecError>(e),
        },
{
    if state.func_index < state.stack.len() && state.func_index + 1 < state.stack.len() {
        Ok(state.stack[state.func_index + 1].copy())
    } else {
        Err(ExecError::BadSlot)
    }
}

pub open spec fn value_opt(v: Option<Value>) -> Option<LuaValue> {
    match v {
        Some(v) => Some(v@),
        None => None,
    }
}

fn const_value(k: &Vec<Value>, i: u8) -> (r: Result<Value, ExecError>)
    ensures
        match const_at(values_view(k@), i as int) {
            Ok(v) => r is Ok && r->Ok_0@ == v,
            Err(e) => r == Err::<Value, ExecError>(e),
        },
{
    if (i as usize) < k.len() {
        Ok(k[i as usize].copy())
    } else {
        Err(ExecError::BadConstant)
    }
}

fn const_key(k: &Vec<Value>, i: u8) -> (r: Result<Vec<u8>, ExecError>)
    ensures
        match key_at(values_view(k@), i as int) {
            Ok(s) => r is Ok && r->Ok_0@ == s,
            Err(e) => r == Err::<Vec<u8>, ExecError>(e),
        },
{
    if (i as usize) < k.len() {
        match &k[i as usize] {
            Value::String(s) => Ok(bytes_copy(s)),
            _ => Err(ExecError::InvalidGlobalKey),
        }
    } else {
        Err(ExecError::BadConstant)
    }
}

} // verus!
