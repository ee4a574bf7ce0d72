use vstd::prelude::*;
use crate::parser::ASTNode;
use crate::token::Token;

verus! {

/// The runtime value of an expression.
#[derive(Clone, Debug, PartialEq)]
pub enum Value {
    Number(i64),
    String(String),
    Boolean(bool),
}

impl Value {
    /// A copy of this value.
    pub fn duplicate(&self) -> (r: Value)
        ensures
            r == *self,
    {
        match self {
            Value::Number(n) => Value::Number(*n),
            Value::String(s) => Value::String(s.clone()),
            Value::Boolean(b) => Value::Boolean(*b),
        }
    }
}

/// The value that the last of the first `n` entries named `k` holds, if any.
pub open spec fn lookup_upto(s: Seq<(String, Value)>, n: int, k: Seq<char>) -> Option<Value>
    decreases n,
{
    if n <= 0 {
        None
    } else if s[n - 1].0@ == k {
        Some(s[n - 1].1)
    } else {
        lookup_upto(s, n - 1, k)
    }
}

/// The environment that a list of bindings stands for: a later binding of a name wins.
pub open spec fn env_of(s: Seq<(String, Value)>) -> Map<Seq<char>, Value> {
    Map::new(
        |k: Seq<char>| lookup_upto(s, s.len() as int, k) is Some,
        |k: Seq<char>| lookup_upto(s, s.len() as int, k).unwrap(),
    )
}

/// The result of an arithmetic operator on two numbers: no value for an operator outside
/// `+ - * /`, on overflow, or on division by zero. Division truncates toward zero.
pub open spec fn arith(l: i64, op: Token, r: i64) -> Option<i64> {
    match op {
        Token::Plus => l.checked_add(r),
        Token::Minus => l.checked_sub(r),
        Token::Multiply => l.checked_mul(r),
        Token::Divide => l.checked_div(r),
        _ => None,
    }
}

/// The result of a binary operation on two values: only numbers combine.
pub open spec fn apply_op(l: Value, op: Token, r: Value) -> Option<Value> {
    match (l, r) {
        (Value::Number(a), Value::Number(b)) => match arith(a, op, b) {
            Some(c) => Some(Value::Number(c)),
            None => None,
        },
        _ => None,
    }
}

/// Evaluating `node` in `env`: its value, the environment after it, and the lines it printed.
pub open spec fn eval(node: ASTNode, env: Map<Seq<char>, Value>) -> (Option<Value>, Map<
    Seq<char>,
    Value,
>, Seq<Seq<char>>)
    decreases node,
{
    match node {
        ASTNode::Print(text) => (None, env, seq![text@]),
        ASTNode::Number(n) => (Some(Value::Number(n)), env, Seq::empty()),
        ASTNode::VarDeclaration(name, expr) => {
            let (v, env1, out) = eval(*expr, env);
            match v {
                Some(v) => (None, env1.insert(name@, v), out),
                None => (None, env1, out),
            }
        },
        ASTNode::VarReference(name) => (
            if env.contains_key(name@) { Some(env[name@]) } else { None },
            env,
            Seq::empty(),
        ),
        ASTNode::BinaryOp(left, op, right) => {
            let (lv, env1, out1) = eval(*left, env);
            match lv {
                None => (None, env1, out1),
                Some(lv) => {
                    let (rv, env2, out2) = eval(*right, env1);
                    match rv {
                        None => (None, env2, out1 + out2),
                        Some(rv) => (apply_op(lv, op, rv), env2, out1 + out2),
                    }
                },
            }
        },
    }
}

/// A number evaluates to itself, leaves the environment alone and prints nothing.
pub proof fn lemma_eval_number(n: i64, env: Map<Seq<char>, Value>)
    ensures
        eval(ASTNode::Number(n), env) == (Some(Value::Number(n)), env, Seq::<Seq<char>>::empty()),
{
}

/// A binary operation yields no value when an operand yields no number, or when the
/// operator is not one of `+ - * /`.
pub proof fn lemma_eval_binary_op_no_value(
    left: ASTNode,
    op: Token,
    right: ASTNode,
    env: Map<Seq<char>, Value>,
)
    requires
        !(eval(left, env).0 matches Some(Value::Number(_))) || !(eval(
            right,
            eval(left, env).1,
        ).0 matches Some(Value::Number(_))) || !(op is Plus || op is Minus || op is Multiply
            || op is Divide),
    ensures
        eval(ASTNode::BinaryOp(Box::new(left), op, Box::new(right)), env).0 is None,
{
}

proof fn lemma_lookup_prefix(s1: Seq<(String, Value)>, s2: Seq<(String, Value)>, n: int, k: Seq<char>)
    requires
        n <= s1.len(),
        n <= s2.len(),
        forall|m: int| 0 <= m < n ==> s1[m] == s2[m],
    ensures
        lookup_upto(s1, n, k) == lookup_upto(s2, n, k),
    decreases n,
{
    if n > 0 {
        lemma_lookup_prefix(s1, s2, n - 1, k);
    }
}

proof fn lemma_lookup_update(s: Seq<(String, Value)>, j: int, e: (String, Value), n: int, k: Seq<char>)
    requires
        0 <= j < n <= s.len(),
        s[j].0@ == e.0@,
        forall|m: int| j < m < n ==> s[m].0@ != e.0@,
    ensures
        lookup_upto(s.update(j, e), n, k) == if k == e.0@ {
            Some(e.1)
        } else {
            lookup_upto(s, n, k)
        },
    decreases n,
{
    let t = s.update(j, e);
    if n - 1 == j {
        lemma_lookup_prefix(s, t, j, k);
    } else {
        lemma_lookup_update(s, j, e, n - 1, k);
    }
}

/// A tree-walking evaluator with a flat variable environment and a buffer of printed lines.
pub struct Interpreter {
    variables: Vec<(String, Value)>,
    output: Vec<String>,
}

impl Interpreter {
    /// The variable environment.
    pub closed spec fn env(&self) -> Map<Seq<char>, Value> {
        env_of(self.variables@)
    }

    /// The lines printed so far and not yet taken.
    pub closed spec fn printed(&self) -> Seq<Seq<char>> {
        self.output@.map_values(|s: String| s@)
    }

    /// An interpreter with no variables and nothing printed.
    pub fn new() -> (r: Self)
        ensures
            r.env() == Map::<Seq<char>, Value>::empty(),
            r.printed() == Seq::<Seq<char>>::empty(),
    {
        let r = Interpreter { variables: Vec::new(), output: Vec::new() };
        proof {
            assert(r.env() =~= Map::<Seq<char>, Value>::empty());
            assert(r.printed() =~= Seq::<Seq<char>>::empty());
        }
        r
    }

    /// The value bound to `name`, if any.
    fn lookup(&self, name: &String) -> (r: Option<Value>)
        ensures
            r == (if self.env().contains_key(name@) { Some(self.env()[name@]) } else { None }),
    {
        let ghost s = self.variables@;
        let mut i: usize = self.variables.len();
        while i > 0
            invariant
                s == self.variables@,
                i <= s.len(),
                lookup_upto(s, i as int, name@) == lookup_upto(s, s.len() as int, name@),
            decreases i,
        {
            if self.variables[i - 1].0 == *name {
                return Some(self.variables[i - 1].1.duplicate());
            }
            i = i - 1;
        }
        None
    }

    /// Binds `name` to `v`, replacing any earlier binding.
    fn bind(&mut self, name: String, v: Value)
        ensures
            final(self).env() == old(self).env().insert(name@, v),
            final(self).printed() == old(self).printed(),
    {
        let ghost s = self.variables@;
        let ghost k = name@;
        let n = self.variables.len();
        let mut i: usize = n;
        while i > 0
            invariant
                s == self.variables@,
                self.output == old(self).output,
                old(self).variables@ == s,
                name@ == k,
                n == s.len(),
                i <= n,
                forall|m: int| i <= m < n ==> s[m].0@ != k,
            decreases i,
        {
            if self.variables[i - 1].0 == name {
                let entry = (name, v);
                let ghost e = entry;
                proof {
                    assert(e.0@ == k);
                }
                self.variables.set(i - 1, entry);
                proof {
                    assert(self.variables@ == s.update(i - 1, e));
                    assert(e.1 == v);
                    assert forall|q: Seq<char>|
                        lookup_upto(s.update(i - 1, e), n as int, q) == if q == k {
                            Some(v)
                        } else {
                            lookup_upto(s, n as int, q)
                        } by {
                        lemma_lookup_update(s, i - 1, e, n as int, q);
                    }
                    assert(self.env() =~= old(self).env().insert(k, v));
                }
                return;
            }
            i = i - 1;
        }
        let ghost e = (name, v);
        self.variables.push((name, v));
        proof {
            let t = self.variables@;
            assert forall|q: Seq<char>|
                lookup_upto(t, t.len() as int, q) == if q == k {
                    Some(v)
                } else {
                    lookup_upto(s, n as int, q)
                } by {
                lemma_lookup_prefix(s, t, n as int, q);
            }
            assert(self.env() =~= old(self).env().insert(k, v));
        }
    }

    /// Evaluates `node`: returns its value, updates the environment and appends what it
    /// prints, as `eval` says. Left operands are evaluated before right ones.
    pub fn run(&mut self, node: &ASTNode) -> (r: Option<Value>)
        ensures
            r == eval(*node, old(self).env()).0,
            final(self).env() == eval(*node, old(self).env()).1,
            final(self).printed() == old(self).printed() + eval(*node, old(self).env()).2,
        decreases node,
    {
        match node {
            ASTNode::Print(text) => {
                self.emit(text.clone());
                proof {
                    assert(self.printed() =~= old(self).printed() + seq![text@]);
                }
                None
            },
            ASTNode::Number(n) => {
                proof {
                    assert(self.printed() =~= old(self).printed() + Seq::<Seq<char>>::empty());
                }
                Some(Value::Number(*n))
            },
            ASTNode::VarDeclaration(name, expr) => {
                match self.run(expr) {
                    Some(v) => self.bind(name.clone(), v),
                    None => {},
                }
                None
            },
            ASTNode::VarReference(name) => {
                proof {
                    assert(self.printed() =~= old(self).printed() + Seq::<Seq<char>>::empty());
                }
                self.lookup(name)
            },
            ASTNode::BinaryOp(left, op, right) => {
                let ghost before = self.printed();
                match self.run(left) {
                    None => None,
                    Some(lv) => {
                        let ghost mid = self.printed();
                        let r = match self.run(right) {
                            None => None,
                            Some(rv) => Self::evaluate_binary_op(lv, op, rv),
                        };
                        proof {
                            assert(self.printed() =~= before + ((mid.subrange(
                                before.len() as int,
                                mid.len() as int,
                            )) + self.printed().subrange(mid.len() as int, self.printed().len() as int)));
                        }
                        r
                    },
                }
            },
        }
    }

    /// Applies an arithmetic operator to two values; see `apply_op`.
    fn evaluate_binary_op(left: Value, op: &Token, right: Value) -> (r: Option<Value>)
        ensures
            r == apply_op(left, *op, right),
    {
        match (left, right) {
            (Value::Number(a), Value::Number(b)) => {
                let c = match op {
                    Token::Plus => a.checked_add(b),
                    Token::Minus => a.checked_sub(b),
                    Token::Multiply => a.checked_mul(b),
                    Token::Divide => a.checked_div(b),
                    _ => None,
                };
                match c {
                    Some(c) => Some(Value::Number(c)),
                    None => None,
                }
            },
            _ => None,
        }
    }

    /// Appends a printed line.
    fn emit(&mut self, text: String)
        ensures
            final(self).printed() == old(self).printed().push(text@),
            final(self).env() == old(self).env(),
    {
        let ghost t = text@;
        self.output.push(text);
        proof {
            assert(self.printed() =~= old(self).printed().push(t));
        }
    }

    /// Takes the printed lines out of the buffer, oldest first.
    pub fn take_output(&mut self) -> (r: Vec<String>)
        ensures
            r@.map_values(|s: String| s@) == old(self).printed(),
            final(self).printed() == Seq::<Seq<char>>::empty(),
            final(self).env() == old(self).env(),
    {
        let mut r: Vec<String> = Vec::new();
        std::mem::swap(&mut r, &mut self.output);
        proof {
            assert(self.printed() =~= Seq::<Seq<char>>::empty());
        }
        r
    }
}

} // verus!
