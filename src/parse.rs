use vstd::prelude::*;

use crate::byte_code::ByteCode;
use crate::lex::{fresh, lemma_scan_pos, next_spec, scan, Lex, ScanError};
use crate::token::{Lexeme, Token};
use crate::value::{bytes_eq, values_view, LuaValue, Value};

verus! {

/// Why compiling stopped.
#[derive(Debug)]
pub enum ParseError {
    Scan(ScanError),
    /// A token the grammar does not allow where it stands.
    Syntax(Token),
    /// A program that needs more than 256 constants.
    TooManyConstants,
    /// A statement that needs a stack slot past 255.
    TooManySlots,
}

/// `ParseError` with its token as a `Lexeme`.
pub enum Fault {
    Scan(ScanError),
    Syntax(Lexeme),
    TooManyConstants,
    TooManySlots,
}

impl View for ParseError {
    type V = Fault;

    open spec fn view(&self) -> Fault {
        match self {
            ParseError::Scan(e) => Fault::Scan(*e),
            ParseError::Syntax(t) => Fault::Syntax(t@),
            ParseError::TooManyConstants => Fault::TooManyConstants,
            ParseError::TooManySlots => Fault::TooManySlots,
        }
    }
}

/// A compiled program: constant pool, instructions, and the names of the
/// locals, each at the stack slot of its position.
pub struct Comp {
    pub consts: Seq<LuaValue>,
    pub codes: Seq<ByteCode>,
    pub locals: Seq<Seq<u8>>,
}

/// A scanner position: cursor and looked-ahead token.
pub type LexAt = (int, Option<Lexeme>);

pub open spec fn lnext(s: Seq<u8>, l: LexAt) -> (Result<Lexeme, ScanError>, LexAt) {
    let (r, p) = next_spec(s, l.0, l.1);
    (r, (p, None))
}

pub open spec fn lpeek(s: Seq<u8>, l: LexAt) -> (Result<Lexeme, ScanError>, LexAt) {
    let (r, p) = next_spec(s, l.0, l.1);
    match r {
        Ok(t) => (Ok(t), (p, Some(t))),
        Err(e) => (Err(e), l),
    }
}

/// The index of the first constant from `i` on equal to `v`, or the length.
pub open spec fn first_index(k: Seq<LuaValue>, v: LuaValue, i: int) -> int
    decreases k.len() - i,
{
    if i < 0 || i >= k.len() {
        k.len() as int
    } else if k[i] == v {
        i
    } else {
        first_index(k, v, i + 1)
    }
}

/// The pool after adding `v`, and the index of `v` in it: an equal constant
/// already there is reused.
pub open spec fn intern(k: Seq<LuaValue>, v: LuaValue) -> (Seq<LuaValue>, int) {
    let i = first_index(k, v, 0);
    if i < k.len() {
        (k, i)
    } else {
        (k.push(v), k.len() as int)
    }
}

/// The slot of the latest local named `name` among the first `n`.
pub open spec fn local_slot_in(locals: Seq<Seq<u8>>, name: Seq<u8>, n: int) -> Option<int>
    decreases n,
{
    if n <= 0 {
        None
    } else if locals[n - 1] == name {
        Some(n - 1)
    } else {
        local_slot_in(locals, name, n - 1)
    }
}

pub open spec fn local_slot(locals: Seq<Seq<u8>>, name: Seq<u8>) -> Option<int> {
    local_slot_in(locals, name, locals.len() as int)
}

pub open spec fn with_code(c: Comp, consts: Seq<LuaValue>, code: ByteCode) -> Comp {
    Comp { consts, codes: c.codes.push(code), locals: c.locals }
}

/// Loading constant `v` into slot `dst`.
pub open spec fn load_const_spec(k: Seq<LuaValue>, v: LuaValue, dst: int) -> Result<(Seq<LuaValue>, ByteCode), Fault> {
    let (k2, i) = intern(k, v);
    if i > 255 {
        Err(Fault::TooManyConstants)
    } else {
        Ok((k2, ByteCode::LocalConst(dst as u8, i as u8)))
    }
}

/// Loading variable `name` into slot `dst`: a move from its slot if it is a
/// local, else a global load by its name.
pub open spec fn load_var_spec(c: Comp, name: Seq<u8>, dst: int) -> Result<(Seq<LuaValue>, ByteCode), Fault> {
    match local_slot(c.locals, name) {
        Some(i) => Ok((c.consts, ByteCode::Move(dst as u8, i as u8))),
        None => {
            let (k2, i) = intern(c.consts, LuaValue::String(name));
            if i > 255 {
                Err(Fault::TooManyConstants)
            } else {
                Ok((k2, ByteCode::GetGlobal(dst as u8, i as u8)))
            }
        },
    }
}

/// The instruction that loads the expression headed by `t` into slot `dst`.
pub open spec fn exp_code(c: Comp, t: Lexeme, dst: int) -> Result<(Seq<LuaValue>, ByteCode), Fault> {
    match t {
        Lexeme::Nil => Ok((c.consts, ByteCode::LoadNil(dst as u8))),
        Lexeme::True => Ok((c.consts, ByteCode::LoadBool(dst as u8, true))),
        Lexeme::False => Ok((c.consts, ByteCode::LoadBool(dst as u8, false))),
        Lexeme::Integer(i) => if i16::MIN <= i <= i16::MAX {
            Ok((c.consts, ByteCode::LoadInt(dst as u8, i as i16)))
        } else {
            load_const_spec(c.consts, LuaValue::Integer(i), dst)
        },
        Lexeme::Float(f) => load_const_spec(c.consts, LuaValue::Float(f), dst),
        Lexeme::String(s) => load_const_spec(c.consts, LuaValue::String(s), dst),
        Lexeme::Name(n) => load_var_spec(c, n, dst),
        _ => Err(Fault::Syntax(t)),
    }
}

/// Reads an expression and loads it into slot `dst`.
pub open spec fn exp_spec(s: Seq<u8>, l: LexAt, c: Comp, dst: int) -> Result<(Comp, LexAt), Fault> {
    match lnext(s, l) {
        (Err(e), _) => Err(Fault::Scan(e)),
        (Ok(t), l2) => match exp_code(c, t, dst) {
            Err(f) => Err(f),
            Ok((k, code)) => Ok((with_code(c, k, code), l2)),
        },
    }
}

/// The instruction that stores the expression headed by `t` into the global
/// named by constant `dst`.
pub open spec fn global_code(k: Seq<LuaValue>, locals: Seq<Seq<u8>>, t: Lexeme, dst: int) -> Result<(Seq<LuaValue>, ByteCode), Fault> {
    let v = match t {
        Lexeme::Nil => Some(LuaValue::Nil),
        Lexeme::True => Some(LuaValue::Boolean(true)),
        Lexeme::False => Some(LuaValue::Boolean(false)),
        Lexeme::Integer(i) => Some(LuaValue::Integer(i)),
        Lexeme::Float(f) => Some(LuaValue::Float(f)),
        Lexeme::String(x) => Some(LuaValue::String(x)),
        _ => None,
    };
    match v {
        Some(v) => {
            let (k2, i) = intern(k, v);
            if i > 255 {
                Err(Fault::TooManyConstants)
            } else {
                Ok((k2, ByteCode::SetGlobalConst(dst as u8, i as u8)))
            }
        },
        None => match t {
            Lexeme::Name(n) => match local_slot(locals, n) {
                Some(i) => Ok((k, ByteCode::SetGlobal(dst as u8, i as u8))),
                None => {
                    let (k2, i) = intern(k, LuaValue::String(n));
                    if i > 255 {
                        Err(Fault::TooManyConstants)
                    } else {
                        Ok((k2, ByteCode::SetGlobalGlobal(dst as u8, i as u8)))
                    }
                },
            },
            _ => Err(Fault::Syntax(t)),
        },
    }
}

/// `var = exp`, from just before the `=`. Assigning to a local loads the
/// expression into its slot.
pub open spec fn assign_spec(s: Seq<u8>, l: LexAt, c: Comp, var: Seq<u8>) -> Result<(Comp, LexAt), Fault> {
    match lnext(s, l) {
        (Err(e), _) => Err(Fault::Scan(e)),
        (Ok(_), l1) => match local_slot(c.locals, var) {
            Some(i) => exp_spec(s, l1, c, i),
            None => {
                let (k1, dst) = intern(c.consts, LuaValue::String(var));
                if dst > 255 {
                    Err(Fault::TooManyConstants)
                } else {
                    match lnext(s, l1) {
                        (Err(e), _) => Err(Fault::Scan(e)),
                        (Ok(t), l2) => match global_code(k1, c.locals, t, dst) {
                            Err(f) => Err(f),
                            Ok((k2, code)) => Ok((with_code(c, k2, code), l2)),
                        },
                    }
                }
            },
        },
    }
}

/// `name(exp)`, `name()` or `name "string"`, from just after the name: the
/// function goes to the first free slot, its argument, if any, to the next.
/// The call always counts one argument.
pub open spec fn call_spec(s: Seq<u8>, l: LexAt, c: Comp, name: Seq<u8>) -> Result<(Comp, LexAt), Fault> {
    let f = c.locals.len() as int;
    if f + 1 > 255 {
        Err(Fault::TooManySlots)
    } else {
        match load_var_spec(c, name, f) {
            Err(x) => Err(x),
            Ok((k1, code1)) => {
                let c1 = with_code(c, k1, code1);
                let call = ByteCode::Call(f as u8, 1);
                match lnext(s, l) {
                    (Err(e), _) => Err(Fault::Scan(e)),
                    (Ok(Lexeme::ParL), l1) => match lpeek(s, l1) {
                        (Err(e), _) => Err(Fault::Scan(e)),
                        (Ok(Lexeme::ParR), l2) => match lnext(s, l2) {
                            (Err(e), _) => Err(Fault::Scan(e)),
                            (Ok(_), l3) => Ok((with_code(c1, c1.consts, call), l3)),
                        },
                        (Ok(_), l2) => match exp_spec(s, l2, c1, f + 1) {
                            Err(x) => Err(x),
                            Ok((c2, l3)) => match lnext(s, l3) {
                                (Err(e), _) => Err(Fault::Scan(e)),
                                (Ok(Lexeme::ParR), l4) => Ok((with_code(c2, c2.consts, call), l4)),
                                (Ok(t), _) => Err(Fault::Syntax(t)),
                            },
                        },
                    },
                    (Ok(Lexeme::String(x)), l1) => match load_const_spec(c1.consts, LuaValue::String(x), f + 1) {
                        Err(x) => Err(x),
                        Ok((k2, code2)) => {
                            let c2 = with_code(c1, k2, code2);
                            Ok((with_code(c2, k2, call), l1))
                        },
                    },
                    (Ok(t), _) => Err(Fault::Syntax(t)),
                }
            },
        }
    }
}

/// `local name = exp`, from just after `local`.
pub open spec fn local_spec(s: Seq<u8>, l: LexAt, c: Comp) -> Result<(Comp, LexAt), Fault> {
    match lnext(s, l) {
        (Err(e), _) => Err(Fault::Scan(e)),
        (Ok(Lexeme::Name(v)), l1) => match lnext(s, l1) {
            (Err(e), _) => Err(Fault::Scan(e)),
            (Ok(Lexeme::Assign), l2) => if c.locals.len() > 255 {
                Err(Fault::TooManySlots)
            } else {
                match exp_spec(s, l2, c, c.locals.len() as int) {
                    Err(x) => Err(x),
                    Ok((c3, l3)) => Ok((Comp { consts: c3.consts, codes: c3.codes, locals: c3.locals.push(v) }, l3)),
                }
            },
            (Ok(t), _) => Err(Fault::Syntax(t)),
        },
        (Ok(t), _) => Err(Fault::Syntax(t)),
    }
}

/// A statement that starts with a name, from just after it: an assignment
/// when `=` follows, else a call.
pub open spec fn name_stmt_spec(s: Seq<u8>, l: LexAt, c: Comp, name: Seq<u8>) -> Result<(Comp, LexAt), Fault> {
    match lpeek(s, l) {
        (Err(e), _) => Err(Fault::Scan(e)),
        (Ok(Lexeme::Assign), l1) => assign_spec(s, l1, c, name),
        (Ok(_), l1) => call_spec(s, l1, c, name),
    }
}

/// One statement, from its first token on.
pub open spec fn stmt_spec(s: Seq<u8>, l: LexAt, c: Comp) -> Result<(Comp, LexAt), Fault> {
    match lnext(s, l) {
        (Err(e), _) => Err(Fault::Scan(e)),
        (Ok(Lexeme::Name(n)), l1) => name_stmt_spec(s, l1, c, n),
        (Ok(Lexeme::Local), l1) => local_spec(s, l1, c),
        (Ok(Lexeme::EOF), l1) => Ok((c, l1)),
        (Ok(t), _) => Err(Fault::Syntax(t)),
    }
}

/// Whether the input ends at `l`.
pub open spec fn at_end(s: Seq<u8>, l: LexAt) -> bool {
    lnext(s, l).0 == Ok::<Lexeme, ScanError>(Lexeme::EOF)
}

/// Statements up to the end of input.
pub open spec fn chunk_spec(s: Seq<u8>, l: LexAt, c: Comp) -> Result<Comp, Fault>
    decreases s.len() - l.0 via chunk_spec_decreases
{
    match stmt_spec(s, l, c) {
        Err(f) => Err(f),
        Ok((c2, l2)) => if at_end(s, l) {
            Ok(c2)
        } else {
            chunk_spec(s, l2, c2)
        },
    }
}

#[via_fn]
proof fn chunk_spec_decreases(s: Seq<u8>, l: LexAt, c: Comp) {
    lemma_statement_advances(s, l, c);
}

/// A statement that compiles, other than the end of input, moves the
/// cursor forward and not past the end of the input.
pub proof fn lemma_statement_advances(s: Seq<u8>, l: LexAt, c: Comp)
    ensures
        match stmt_spec(s, l, c) {
            Ok((_, l2)) => !at_end(s, l) ==> l.0 < l2.0 <= s.len(),
            Err(_) => true,
        },
{
    assert forall|i: int| #![trigger scan(s, i)]
        (scan(s, i).0 == Ok::<Lexeme, ScanError>(Lexeme::EOF) ==> scan(s, i).1 == s.len())
        && ((scan(s, i).0 is Ok && scan(s, i).0->Ok_0 != Lexeme::EOF) ==> 0 <= i < scan(s, i).1 <= s.len()) by {
        lemma_scan_pos(s, i);
    }
}

/// The result of compiling `src`.
pub open spec fn compile(s: Seq<u8>) -> Result<Comp, Fault> {
    chunk_spec(s, (0, None), Comp { consts: Seq::empty(), codes: Seq::empty(), locals: Seq::empty() })
}

proof fn lemma_first_index(k: Seq<LuaValue>, v: LuaValue, i: int)
    requires
        0 <= i <= k.len(),
    ensures
        i <= first_index(k, v, i) <= k.len(),
        first_index(k, v, i) < k.len() ==> k[first_index(k, v, i)] == v,
        first_index(k, v, i) == k.len() ==> first_index(k.push(v), v, i) == k.len(),
    decreases k.len() - i,
{
    if i < k.len() {
        lemma_first_index(k, v, i + 1);
        if k[i] != v {
            assert(k.push(v)[i] == k[i]);
        }
    }
}

/// Interning is idempotent: adding a value the pool already got gives the
/// same index and leaves the pool as it is, and the index holds the value.
/// So two references to one literal share one constant.
pub proof fn lemma_intern_dedup(k: Seq<LuaValue>, v: LuaValue)
    ensures
        ({
            let (k1, i) = intern(k, v);
            let (k2, j) = intern(k1, v);
            &&& 0 <= i < k1.len()
            &&& k1[i] == v
            &&& k2 == k1
            &&& j == i
        }),
{
    lemma_first_index(k, v, 0);
    let (k1, i) = intern(k, v);
    if i == k.len() {
        lemma_first_index(k.push(v), v, 0);
    }
}

/// A later `local` of the same name hides the earlier one, and a local of
/// another name does not change which slot a name resolves to.
pub proof fn lemma_shadowing(locals: Seq<Seq<u8>>, x: Seq<u8>, y: Seq<u8>)
    ensures
        local_slot(locals.push(x), x) == Some(locals.len() as int),
        x != y ==> local_slot(locals.push(y), x) == local_slot(locals, x),
{
    if x != y {
        let n = locals.len() as int;
        assert forall|m: int| 0 <= m <= n implies local_slot_in(locals.push(y), x, m) == local_slot_in(locals, x, m) by {
            lemma_prefix_slot(locals, y, x, m);
        }
    }
}

proof fn lemma_prefix_slot(locals: Seq<Seq<u8>>, y: Seq<u8>, x: Seq<u8>, m: int)
    requires
        0 <= m <= locals.len(),
    ensures
        local_slot_in(locals.push(y), x, m) == local_slot_in(locals, x, m),
    decreases m,
{
    if m > 0 {
        assert(locals.push(y)[m - 1] == locals[m - 1]);
        lemma_prefix_slot(locals, y, x, m - 1);
    }
}

/// The compiler, and the program it produces: constant pool, instructions
/// and locals table.
#[derive(Debug)]
pub struct ParseProto {
    pub constants: Vec<Value>,
    pub byte_codes: Vec<ByteCode>,
    pub locals: Vec<Vec<u8>>,
    pub lex: Lex,
}

impl ParseProto {
    pub open spec fn comp(&self) -> Comp {
        Comp {
            consts: values_view(self.constants@),
            codes: self.byte_codes@,
            locals: self.locals@.map_values(|v: Vec<u8>| v@),
        }
    }

    pub closed spec fn src(&self) -> Seq<u8> {
        self.lex.source()
    }

    pub closed spec fn lex_at(&self) -> LexAt {
        (self.lex.cursor(), self.lex.lookahead())
    }

    pub closed spec fn wf(&self) -> bool {
        self.lex.wf() && self.lex.cursor() <= self.lex.source().len()
    }

    /// Compiles the whole of `input`.
    pub fn load(input: Vec<u8>) -> (r: Result<ParseProto, ParseError>)
        ensures
            match r {
                Ok(p) => compile(input@) == Ok::<Comp, Fault>(p.comp()),
                Err(e) => compile(input@) == Err::<Comp, Fault>(e@),
            },
    {
        let mut proto = ParseProto {
            constants: Vec::new(),
            byte_codes: Vec::new(),
            locals: Vec::new(),
            lex: Lex::new(input),
        };
        assert(proto.comp().consts =~= Seq::<LuaValue>::empty());
        assert(proto.comp().locals =~= Seq::<Seq<u8>>::empty());
        match proto.chunk() {
            Ok(()) => Ok(proto),
            Err(e) => Err(e),
        }
    }

    fn chunk(&mut self) -> (r: Result<(), ParseError>)
        requires
            old(self).wf(),
            old(self).lex_at().1 is None,
        ensures
            match r {
                Ok(()) => chunk_spec(old(self).src(), old(self).lex_at(), old(self).comp()) == Ok::<Comp, Fault>(final(self).comp()),
                Err(e) => chunk_spec(old(self).src(), old(self).lex_at(), old(self).comp()) == Err::<Comp, Fault>(e@),
            },
    {
        loop
            invariant_except_break
                chunk_spec(self.src(), self.lex_at(), self.comp()) == chunk_spec(old(self).src(), old(self).lex_at(), old(self).comp()),
            invariant
                self.wf(),
                self.src() == old(self).src(),
                self.lex_at().1 is None,
            ensures
                chunk_spec(old(self).src(), old(self).lex_at(), old(self).comp()) == Ok::<Comp, Fault>(self.comp()),
            decreases self.src().len() - self.lex_at().0,
        {
            let ghost l0 = self.lex_at();
            let ghost c0 = self.comp();
            assert(chunk_spec(self.src(), l0, c0) == chunk_spec(old(self).src(), old(self).lex_at(), old(self).comp()));
            match self.statement() {
                Ok(true) => break,
                Ok(false) => {},
                Err(e) => return Err(e),
            }
        }
        Ok(())
    }

    /// Compiles one statement; `true` at the end of input.
    fn statement(&mut self) -> (r: Result<bool, ParseError>)
        requires
            old(self).wf(),
            old(self).lex_at().1 is None,
        ensures
            final(self).wf(),
            final(self).src() == old(self).src(),
            r is Ok ==> final(self).lex_at().1 is None,
            r == Ok::<bool, ParseError>(true) ==> at_end(old(self).src(), old(self).lex_at()),
            r == Ok::<bool, ParseError>(false) ==> !at_end(old(self).src(), old(self).lex_at())
                && old(self).lex_at().0 < final(self).lex_at().0 <= final(self).src().len(),
            match r {
                Ok(_) => stmt_spec(old(self).src(), old(self).lex_at(), old(self).comp())
                    == Ok::<(Comp, LexAt), Fault>((final(self).comp(), final(self).lex_at())),
                Err(e) => stmt_spec(old(self).src(), old(self).lex_at(), old(self).comp())
                    == Err::<(Comp, LexAt), Fault>(e@),
            },
    {
        let t = match self.lex.next() {
            Ok(t) => t,
            Err(e) => return Err(ParseError::Scan(e)),
        };
        match t {
            Token::Name(name) => match self.name_statement(name) {
                Ok(()) => Ok(false),
                Err(e) => Err(e),
            },
            Token::Local => match self.local() {
                Ok(()) => Ok(false),
                Err(e) => Err(e),
            },
            Token::EOF => Ok(true),
            t => Err(ParseError::Syntax(t)),
        }
    }

    /// A statement that starts with `name`: an assignment when `=` follows,
    /// else a call.
    fn name_statement(&mut self, name: Vec<u8>) -> (r: Result<(), ParseError>)
        requires
            old(self).wf(),
        ensures
            final(self).wf(),
            final(self).src() == old(self).src(),
            r is Ok ==> final(self).lex_at().1 is None,
            old(self).lex_at().0 <= final(self).lex_at().0,
            match r {
                Ok(()) => name_stmt_spec(old(self).src(), old(self).lex_at(), old(self).comp(), name@)
                    == Ok::<(Comp, LexAt), Fault>((final(self).comp(), final(self).lex_at())),
                Err(e) => name_stmt_spec(old(self).src(), old(self).lex_at(), old(self).comp(), name@)
                    == Err::<(Comp, LexAt), Fault>(e@),
            },
    {
        let ahead = match self.lex.peak() {
            Ok(a) => a,
            Err(e) => return Err(ParseError::Scan(e)),
        };
        if matches!(ahead, Token::Assign) {
            self.assignment(name)
        } else {
            self.function_call(name)
        }
    }

    fn assignment(&mut self, var: Vec<u8>) -> (r: Result<(), ParseError>)
        requires
            old(self).wf(),
        ensures
            final(self).wf(),
            final(self).src() == old(self).src(),
            r is Ok ==> final(self).lex_at().1 is None,
            old(self).lex_at().0 <= final(self).lex_at().0,
            match r {
                Ok(()) => assign_spec(old(self).src(), old(self).lex_at(), old(self).comp(), var@)
                    == Ok::<(Comp, LexAt), Fault>((final(self).comp(), final(self).lex_at())),
                Err(e) => assign_spec(old(self).src(), old(self).lex_at(), old(self).comp(), var@)
                    == Err::<(Comp, LexAt), Fault>(e@),
            },
    {
        match self.lex.next() {
            Ok(_) => {},
            Err(e) => return Err(ParseError::Scan(e)),
        }
        if let Some(i) = self.get_local(&var) {
            return self.load_exp(i);
        }
        let ghost k0 = self.comp().consts;
        let dst = self.add_const(Value::String(var));
        if dst > 255 {
            return Err(ParseError::TooManyConstants);
        }
        let t = match self.lex.next() {
            Ok(t) => t,
            Err(e) => return Err(ParseError::Scan(e)),
        };
        let code = match t {
            Token::Nil => self.global_const(dst, Value::Nil),
            Token::True => self.global_const(dst, Value::Boolean(true)),
            Token::False => self.global_const(dst, Value::Boolean(false)),
            Token::Integer(i) => self.global_const(dst, Value::Integer(i)),
            Token::Float(f) => self.global_const(dst, Value::Float(f)),
            Token::String(x) => self.global_const(dst, Value::String(x)),
            Token::Name(n) => {
                if let Some(i) = self.get_local(&n) {
                    Ok(ByteCode::SetGlobal(dst as u8, i as u8))
                } else {
                    let c = self.add_const(Value::String(n));
                    if c > 255 {
                        Err(ParseError::TooManyConstants)
                    } else {
                        Ok(ByteCode::SetGlobalGlobal(dst as u8, c as u8))
                    }
                }
            },
            t => Err(ParseError::Syntax(t)),
        };
        match code {
            Ok(code) => {
                self.byte_codes.push(code);
                Ok(())
            },
            Err(e) => Err(e),
        }
    }

    /// Stores constant `v` into the global named by constant `dst`.
    fn global_const(&mut self, dst: usize, v: Value) -> (r: Result<ByteCode, ParseError>)
        requires
            dst <= 255,
        ensures
            final(self).byte_codes == old(self).byte_codes,
            final(self).locals == old(self).locals,
            final(self).lex == old(self).lex,
            ({
                let (k2, i) = intern(old(self).comp().consts, v@);
                match r {
                    Ok(code) => i <= 255 && final(self).comp().consts == k2
                        && code == ByteCode::SetGlobalConst(dst as u8, i as u8),
                    Err(e) => i > 255 && e@ == Fault::TooManyConstants,
                }
            }),
    {
        let c = self.add_const(v);
        if c > 255 {
            Err(ParseError::TooManyConstants)
        } else {
            Ok(ByteCode::SetGlobalConst(dst as u8, c as u8))
        }
    }

    /// The slot of the latest local named `var`.
    pub fn get_local(&self, var: &Vec<u8>) -> (r: Option<usize>)
        ensures
            match r {
                Some(i) => local_slot(self.comp().locals, var@) == Some(i as int) && i < self.locals.len(),
                None => local_slot(self.comp().locals, var@) is None,
            },
    {
        let mut i = self.locals.len();
        while i > 0 && !bytes_eq(&self.locals[i - 1], var)
            invariant
                i <= self.locals.len(),
                local_slot_in(self.comp().locals, var@, i as int) == local_slot(self.comp().locals, var@),
            decreases i,
        {
            i -= 1;
        }
        if i > 0 {
            Some(i - 1)
        } else {
            None
        }
    }

    fn function_call(&mut self, name: Vec<u8>) -> (r: Result<(), ParseError>)
        requires
            old(self).wf(),
        ensures
            final(self).wf(),
            final(self).src() == old(self).src(),
            r is Ok ==> final(self).lex_at().1 is None,
            old(self).lex_at().0 <= final(self).lex_at().0,
            match r {
                Ok(()) => call_spec(old(self).src(), old(self).lex_at(), old(self).comp(), name@)
                    == Ok::<(Comp, LexAt), Fault>((final(self).comp(), final(self).lex_at())),
                Err(e) => call_spec(old(self).src(), old(self).lex_at(), old(self).comp(), name@)
                    == Err::<(Comp, LexAt), Fault>(e@),
            },
    {
        let ifunc = self.locals.len();
        if ifunc >= 255 {
            return Err(ParseError::TooManySlots);
        }
        let iargs = ifunc + 1;
        let code = match self.load_var(ifunc, name) {
            Ok(code) => code,
            Err(e) => return Err(e),
        };
        self.byte_codes.push(code);
        let t = match self.lex.next() {
            Ok(t) => t,
            Err(e) => return Err(ParseError::Scan(e)),
        };
        match t {
            Token::ParL => {
                let ahead = match self.lex.peak() {
                    Ok(a) => a,
                    Err(e) => return Err(ParseError::Scan(e)),
                };
                if matches!(ahead, Token::ParR) {
                    match self.lex.next() {
                        Ok(_) => {},
                        Err(e) => return Err(ParseError::Scan(e)),
                    }
                } else {
                    match self.load_exp(iargs) {
                        Ok(()) => {},
                        Err(e) => return Err(e),
                    }
                    match self.lex.next() {
                        Ok(Token::ParR) => {},
                        Ok(t) => return Err(ParseError::Syntax(t)),
                        Err(e) => return Err(ParseError::Scan(e)),
                    }
                }
            },
            Token::String(s) => {
                let code = match self.load_const(iargs, Value::String(s)) {
                    Ok(code) => code,
                    Err(e) => return Err(e),
                };
                self.byte_codes.push(code);
            },
            t => return Err(ParseError::Syntax(t)),
        }
        self.byte_codes.push(ByteCode::Call(ifunc as u8, 1));
        Ok(())
    }

    fn local(&mut self) -> (r: Result<(), ParseError>)
        requires
            old(self).wf(),
        ensures
            final(self).wf(),
            final(self).src() == old(self).src(),
            r is Ok ==> final(self).lex_at().1 is None,
            old(self).lex_at().0 <= final(self).lex_at().0,
            match r {
                Ok(()) => local_spec(old(self).src(), old(self).lex_at(), old(self).comp())
                    == Ok::<(Comp, LexAt), Fault>((final(self).comp(), final(self).lex_at())),
                Err(e) => local_spec(old(self).src(), old(self).lex_at(), old(self).comp())
                    == Err::<(Comp, LexAt), Fault>(e@),
            },
    {
        let var = match self.lex.next() {
            Ok(Token::Name(var)) => var,
            Ok(t) => return Err(ParseError::Syntax(t)),
            Err(e) => return Err(ParseError::Scan(e)),
        };
        match self.lex.next() {
            Ok(Token::Assign) => {},
            Ok(t) => return Err(ParseError::Syntax(t)),
            Err(e) => return Err(ParseError::Scan(e)),
        }
        if self.locals.len() > 255 {
            return Err(ParseError::TooManySlots);
        }
        match self.load_exp(self.locals.len()) {
            Ok(()) => {},
            Err(e) => return Err(e),
        }
        let ghost before = self.comp();
        let ghost name = var@;
        self.locals.push(var);
        assert(self.comp().locals =~= before.locals.push(name));
        Ok(())
    }

    /// The index of `v` in the constant pool, which gets it if it has no
    /// equal constant yet.
    pub fn add_const(&mut self, v: Value) -> (r: usize)
        ensures
            (final(self).comp().consts, r as int) == intern(old(self).comp().consts, v@),
            r < final(self).constants.len(),
            final(self).comp().consts[r as int] == v@,
            final(self).byte_codes == old(self).byte_codes,
            final(self).locals == old(self).locals,
            final(self).lex == old(self).lex,
    {
        proof {
            lemma_intern_dedup(self.comp().consts, v@);
        }
        let mut i: usize = 0;
        while i < self.constants.len() && !self.constants[i].same(&v)
            invariant
                self == old(self),
                i <= self.constants.len(),
                first_index(self.comp().consts, v@, i as int) == first_index(self.comp().consts, v@, 0),
            decreases self.constants.len() - i,
        {
            i += 1;
        }
        if i < self.constants.len() {
            i
        } else {
            let ghost k = self.comp().consts;
            let ghost vv = v@;
            self.constants.push(v);
            assert(self.comp().consts =~= k.push(vv));
            self.constants.len() - 1
        }
    }

    fn load_const(&mut self, dst: usize, c: Value) -> (r: Result<ByteCode, ParseError>)
        ensures
            final(self).byte_codes == old(self).byte_codes,
            final(self).locals == old(self).locals,
            final(self).lex == old(self).lex,
            match r {
                Ok(code) => load_const_spec(old(self).comp().consts, c@, dst as int)
                    == Ok::<(Seq<LuaValue>, ByteCode), Fault>((final(self).comp().consts, code)),
                Err(e) => load_const_spec(old(self).comp().consts, c@, dst as int)
                    == Err::<(Seq<LuaValue>, ByteCode), Fault>(e@),
            },
    {
        let i = self.add_const(c);
        if i > 255 {
            Err(ParseError::TooManyConstants)
        } else {
            Ok(ByteCode::LocalConst(dst as u8, i as u8))
        }
    }

    fn load_var(&mut self, dst: usize, name: Vec<u8>) -> (r: Result<ByteCode, ParseError>)
        ensures
            final(self).byte_codes == old(self).byte_codes,
            final(self).locals == old(self).locals,
            final(self).lex == old(self).lex,
            match r {
                Ok(code) => load_var_spec(old(self).comp(), name@, dst as int)
                    == Ok::<(Seq<LuaValue>, ByteCode), Fault>((final(self).comp().consts, code)),
                Err(e) => load_var_spec(old(self).comp(), name@, dst as int)
                    == Err::<(Seq<LuaValue>, ByteCode), Fault>(e@),
            },
    {
        if let Some(idx) = self.get_local(&name) {
            Ok(ByteCode::Move(dst as u8, idx as u8))
        } else {
            let ic = self.add_const(Value::String(name));
            if ic > 255 {
                Err(ParseError::TooManyConstants)
            } else {
                Ok(ByteCode::GetGlobal(dst as u8, ic as u8))
            }
        }
    }

    fn load_exp(&mut self, dst: usize) -> (r: Result<(), ParseError>)
        requires
            old(self).wf(),
        ensures
            final(self).wf(),
            final(self).src() == old(self).src(),
            r is Ok ==> final(self).lex_at().1 is None,
            old(self).lex_at().0 <= final(self).lex_at().0,
            final(self).locals == old(self).locals,
            match r {
                Ok(()) => exp_spec(old(self).src(), old(self).lex_at(), old(self).comp(), dst as int)
                    == Ok::<(Comp, LexAt), Fault>((final(self).comp(), final(self).lex_at())),
                Err(e) => exp_spec(old(self).src(), old(self).lex_at(), old(self).comp(), dst as int)
                    == Err::<(Comp, LexAt), Fault>(e@),
            },
    {
        let t = match self.lex.next() {
            Ok(t) => t,
            Err(e) => return Err(ParseError::Scan(e)),
        };
        let code = match t {
            Token::Nil => Ok(ByteCode::LoadNil(dst as u8)),
            Token::True => Ok(ByteCode::LoadBool(dst as u8, true)),
            Token::False => Ok(ByteCode::LoadBool(dst as u8, false)),
            Token::Integer(i) => {
                if -32768 <= i && i <= 32767 {
                    Ok(ByteCode::LoadInt(dst as u8, i as i16))
                } else {
                    self.load_const(dst, Value::Integer(i))
                }
            },
            Token::Float(f) => self.load_const(dst, Value::Float(f)),
            Token::String(s) => self.load_const(dst, Value::String(s)),
            Token::Name(name) => self.load_var(dst, name),
            t => Err(ParseError::Syntax(t)),
        };
        match code {
            Ok(code) => {
                self.byte_codes.push(code);
                Ok(())
            },
            Err(e) => Err(e),
        }
    }
}

} // verus!
