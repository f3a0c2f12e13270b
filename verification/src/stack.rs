//! Which named value lives at which depth of the run-time stack, and the code that copies,
//! drops, rebinds and reorders them.

use vstd::prelude::*;

use kaspa_txscript::script_builder::ScriptBuilder;

use crate::error::CompilerError;
use crate::opcodes::{OP_DROP, OP_DUP, OP_PICK, OP_ROLL};
use crate::script::{
    add_int, add_op, appended, code_of, emits, lemma_appended_seq, lemma_code_of_append, lemma_emits_append,
    script_of, Chunk,
};

verus! {

/// The names bound on the stack, the top of the stack first.
pub struct StackBindings {
    names: Vec<String>,
}

/// The first position at or after `i` that holds `name`.
pub open spec fn first_index_from(b: Seq<Seq<char>>, name: Seq<char>, i: int) -> Option<nat>
    decreases b.len() - i,
{
    if i < 0 || i >= b.len() {
        None
    } else if b[i] == name {
        Some(i as nat)
    } else {
        first_index_from(b, name, i + 1)
    }
}

/// The depth of the shallowest binding of `name`.
pub open spec fn binding_depth(b: Seq<Seq<char>>, name: Seq<char>) -> Option<nat> {
    first_index_from(b, name, 0)
}

pub proof fn lemma_first_index_from(b: Seq<Seq<char>>, name: Seq<char>, i: int)
    requires
        0 <= i,
    ensures
        first_index_from(b, name, i) matches Some(k) ==> i <= k < b.len() && b[k as int] == name
            && forall|j: int| i <= j < k ==> b[j] != name,
        first_index_from(b, name, i) is None ==> forall|j: int| i <= j < b.len() ==> b[j] != name,
    decreases b.len() - i,
{
    if i < b.len() && b[i] != name {
        lemma_first_index_from(b, name, i + 1);
    }
}

/// The shallowest binding of `name` is the first position that holds it.
pub proof fn lemma_binding_depth(b: Seq<Seq<char>>, name: Seq<char>)
    ensures
        binding_depth(b, name) matches Some(k) ==> k < b.len() && b[k as int] == name
            && forall|j: int| 0 <= j < k ==> b[j] != name,
        binding_depth(b, name) is None <==> !b.contains(name),
{
    lemma_first_index_from(b, name, 0);
    if let Some(k) = binding_depth(b, name) {
        assert(b[k as int] == name);
    }
}

/// Whether `depths` places its names at distinct depths `0 .. depths.len()`.
pub open spec fn is_depth_assignment(depths: Seq<(String, i64)>) -> bool {
    &&& forall|i: int| 0 <= i < depths.len() ==> 0 <= #[trigger] depths[i].1 < depths.len()
    &&& forall|i: int, j: int|
        0 <= i < depths.len() && 0 <= j < depths.len() && i != j ==> #[trigger] depths[i].1
            != #[trigger] depths[j].1
}

/// The code that copies the value at stack position `pos` to the top.
pub open spec fn copy_chunks(pos: i64) -> Seq<Chunk> {
    if pos == 0 {
        seq![Chunk::Op(OP_DUP)]
    } else {
        seq![Chunk::Int(pos), Chunk::Op(OP_PICK)]
    }
}

/// The code that drops the value at stack position `k`.
pub open spec fn drop_chunks(k: nat) -> Seq<Chunk> {
    if k == 0 {
        seq![Chunk::Op(OP_DROP)]
    } else {
        seq![Chunk::Int(k as i64), Chunk::Op(OP_ROLL), Chunk::Op(OP_DROP)]
    }
}

/// Prefixes the chunks of a successful plan.
pub open spec fn after_chunks<S>(cs: Seq<Chunk>, plan: Result<(Seq<Chunk>, S), CompilerError>) -> Result<
    (Seq<Chunk>, S),
    CompilerError,
> {
    match plan {
        Ok((c, s)) => Ok((cs + c, s)),
        Err(e) => Err(e),
    }
}

/// Dropping the bindings `names`, in order: the code, and the bindings left.
pub open spec fn drop_plan(b: Seq<Seq<char>>, names: Seq<Seq<char>>) -> Result<
    (Seq<Chunk>, Seq<Seq<char>>),
    CompilerError,
>
    decreases names.len(),
{
    if names.len() == 0 {
        Ok((Seq::empty(), b))
    } else {
        match binding_depth(b, names[0]) {
            None => Err(CompilerError::StackMismatch),
            Some(k) => after_chunks(drop_chunks(k), drop_plan(b.remove(k as int), names.drop_first())),
        }
    }
}

/// Reordering the bindings `b` into `target`: bring `target[j - 1]`, then `target[j - 2]`,
/// and so on to `target[0]`, to the top. The code, and the bindings it leaves.
pub open spec fn reorder_plan(b: Seq<Seq<char>>, target: Seq<Seq<char>>, j: int) -> Result<
    (Seq<Chunk>, Seq<Seq<char>>),
    CompilerError,
>
    decreases j,
{
    if j <= 0 {
        Ok((Seq::empty(), b))
    } else {
        let name = target[j - 1];
        match binding_depth(b, name) {
            None => Err(CompilerError::StackMismatch),
            Some(k) => if k == 0 {
                reorder_plan(b, target, j - 1)
            } else {
                after_chunks(
                    seq![Chunk::Int(k as i64), Chunk::Op(OP_ROLL)],
                    reorder_plan(seq![name] + b.remove(k as int), target, j - 1),
                )
            },
        }
    }
}

/// Reordering with `target[j ..]` already on top and the names `target[.. j]` below them.
proof fn lemma_reorder_from(cur: Seq<Seq<char>>, target: Seq<Seq<char>>, j: int)
    requires
        0 <= j <= target.len(),
        target.no_duplicates(),
        cur.len() == target.len(),
        cur.subrange(0, target.len() - j) == target.subrange(j, target.len() as int),
        forall|i: int| 0 <= i < j ==> cur.subrange(target.len() - j, target.len() as int).contains(#[trigger] target[i]),
    ensures
        reorder_plan(cur, target, j) matches Ok((_, left)) && left == target,
    decreases j,
{
    let n = target.len() as int;
    if j == 0 {
        assert(cur == cur.subrange(0, n));
        assert(target == target.subrange(0, n));
    } else {
        let name = target[j - 1];
        let y = cur.subrange(n - j, n);
        assert(y.contains(name));
        let p = choose|p: int| 0 <= p < y.len() && y[p] == name;
        assert(cur[n - j + p] == name);
        assert(cur.contains(name));
        lemma_binding_depth(cur, name);
        let k = binding_depth(cur, name)->Some_0 as int;
        assert forall|i: int| 0 <= i < n - j implies cur[i] != name by {
            assert(cur[i] == cur.subrange(0, n - j)[i]);
            assert(cur[i] == target[j + i]);
        }
        assert(k >= n - j);
        if k == 0 {
            assert(j == n);
            assert(cur.subrange(0, n - (j - 1)) == target.subrange(j - 1, n));
            assert forall|i: int| 0 <= i < j - 1 implies cur.subrange(n - (j - 1), n).contains(
                #[trigger] target[i],
            ) by {
                assert(y.contains(target[i]));
                let q = choose|q: int| 0 <= q < y.len() && y[q] == target[i];
                assert(q != 0);
                assert(cur.subrange(1, n)[q - 1] == target[i]);
            }
            lemma_reorder_from(cur, target, j - 1);
        } else {
            let next = seq![name] + cur.remove(k);
            assert(next.subrange(0, n - (j - 1)) == target.subrange(j - 1, n)) by {
                assert forall|i: int| 0 <= i < n - (j - 1) implies #[trigger] next.subrange(0, n - (j - 1))[i]
                    == target.subrange(j - 1, n)[i] by {
                    if i > 0 {
                        assert(next[i] == cur.remove(k)[i - 1]);
                        assert(cur.remove(k)[i - 1] == cur[i - 1]);
                        assert(cur[i - 1] == cur.subrange(0, n - j)[i - 1]);
                    }
                }
            }
            assert forall|i: int| 0 <= i < j - 1 implies next.subrange(n - (j - 1), n).contains(
                #[trigger] target[i],
            ) by {
                assert(y.contains(target[i]));
                let q = choose|q: int| 0 <= q < y.len() && y[q] == target[i];
                assert(target[i] != name);
                assert(n - j + q != k);
                if n - j + q < k {
                    assert(cur.remove(k)[n - j + q] == target[i]);
                    assert(next[n - j + q + 1] == target[i]);
                    assert(next.subrange(n - (j - 1), n)[q] == target[i]);
                } else {
                    assert(cur.remove(k)[n - j + q - 1] == target[i]);
                    assert(next[n - j + q] == target[i]);
                    assert(next.subrange(n - (j - 1), n)[q - 1] == target[i]);
                }
            }
            lemma_reorder_from(next, target, j - 1);
        }
    }
}

/// Law: reordering a stack into a target order of the same names, each bound once,
/// succeeds and leaves the stack in exactly the target's order.
pub proof fn lemma_reorder_reaches_target(b: Seq<Seq<char>>, target: Seq<Seq<char>>)
    requires
        target.no_duplicates(),
        b.len() == target.len(),
        forall|i: int| 0 <= i < target.len() ==> b.contains(#[trigger] target[i]),
    ensures
        reorder_plan(b, target, target.len() as int) matches Ok((_, left)) && left == target,
{
    assert(b.subrange(0, 0) == target.subrange(target.len() as int, target.len() as int));
    assert(b.subrange(0, b.len() as int) == b);
    lemma_reorder_from(b, target, target.len() as int);
}

/// If a plan extends a prefix whose last step the builder refuses, the builder refuses the
/// whole plan.
pub proof fn lemma_after_chunks_refused<S>(
    script: Seq<u8>,
    done: Seq<Chunk>,
    step: Seq<Chunk>,
    rest: Result<(Seq<Chunk>, S), CompilerError>,
)
    requires
        !emits(script + code_of(done), step),
    ensures
        after_chunks(done + step, rest) matches Ok((cs, _)) ==> !emits(script, cs),
{
    if let Ok((c, _)) = rest {
        lemma_emits_append(script, done, step);
        lemma_emits_append(script, done + step, c);
    }
}

impl StackBindings {
    pub closed spec fn names(&self) -> Seq<Seq<char>> {
        self.names@.map_values(|s: String| s@)
    }

    pub fn new() -> (r: Self)
        ensures
            r@ == Seq::<Seq<char>>::empty(),
    {
        let r = StackBindings { names: Vec::new() };
        assert(r.names() =~= Seq::<Seq<char>>::empty());
        r
    }

    /// Bindings placed at the given depths.
    pub fn from_depths(depths: Vec<(String, i64)>) -> (r: Self)
        requires
            is_depth_assignment(depths@),
        ensures
            r@.len() == depths@.len(),
            forall|i: int| 0 <= i < depths@.len() ==> r@[depths@[i].1 as int] == #[trigger] depths@[i].0@,
    {
        let n = depths.len();
        let mut names: Vec<String> = Vec::new();
        for _k in 0..n
            invariant
                names@.len() == _k,
        {
            names.push(String::new());
        }
        for i in 0..n
            invariant
                n == depths@.len(),
                is_depth_assignment(depths@),
                names@.len() == n,
                forall|j: int| 0 <= j < i ==> names@[depths@[j].1 as int]@ == #[trigger] depths@[j].0@,
        {
            let d = depths[i].1 as usize;
            let name = depths[i].0.clone();
            names.set(d, name);
        }
        let r = StackBindings { names };
        assert forall|i: int| 0 <= i < depths@.len() implies r@[depths@[i].1 as int]
            == #[trigger] depths@[i].0@ by {
            assert(r.names()[depths@[i].1 as int] == r.names@[depths@[i].1 as int]@);
        }
        r
    }

    pub fn len(&self) -> (r: usize)
        ensures
            r == self@.len(),
    {
        self.names.len()
    }

    /// The depth of the shallowest binding of `name`.
    pub fn depth_of(&self, name: &str) -> (r: Option<usize>)
        ensures
            match (r, binding_depth(self@, name@)) {
                (Some(k), Some(m)) => k == m,
                (None, None) => true,
                _ => false,
            },
    {
        let wanted = name.to_owned();
        for i in 0..self.names.len()
            invariant
                wanted@ == name@,
                binding_depth(self@, name@) == first_index_from(self@, name@, i as int),
        {
            assert(self@[i as int] == self.names@[i as int]@);
            if self.names[i] == wanted {
                return Some(i);
            }
        }
        None
    }

    pub fn contains(&self, name: &str) -> (r: bool)
        ensures
            r == self@.contains(name@),
    {
        proof {
            lemma_binding_depth(self@, name@);
        }
        self.depth_of(name).is_some()
    }

    /// Binds `name` to the value on top of the stack.
    pub fn push_binding(&mut self, name: &str)
        ensures
            final(self)@ == seq![name@] + old(self)@,
    {
        self.names.insert(0, name.to_owned());
        assert(self@ =~= seq![name@] + old(self)@);
    }

    /// The bound names, the top of the stack first.
    pub fn binding_order(&self) -> (r: Vec<String>)
        ensures
            r@.map_values(|s: String| s@) == self@,
    {
        let mut r: Vec<String> = Vec::new();
        for i in 0..self.names.len()
            invariant
                r@.len() == i,
                i <= self@.len(),
                self@.len() == self.names@.len(),
                forall|j: int| 0 <= j < i ==> #[trigger] r@[j]@ == self@[j],
        {
            let name = self.names[i].clone();
            assert(self@[i as int] == self.names@[i as int]@);
            r.push(name);
        }
        assert(r@.map_values(|s: String| s@) =~= self@);
        r
    }

    /// Copies the value bound to `name` to the top of the stack, `stack_depth` values above
    /// the bindings; returns whether `name` is bound.
    pub fn emit_copy_binding_to_top(
        &self,
        name: &str,
        stack_depth: &mut i64,
        builder: &mut ScriptBuilder,
    ) -> (r: Result<bool, CompilerError>)
        requires
            *old(stack_depth) < i64::MAX,
        ensures
            match binding_depth(self@, name@) {
                None => r == Ok::<bool, CompilerError>(false) && script_of(*final(builder))
                    == script_of(*old(builder)) && *final(stack_depth) == *old(stack_depth),
                Some(k) => if k > i64::MAX || k + *old(stack_depth) > i64::MAX {
                    r == Err::<bool, CompilerError>(CompilerError::ArithmeticOverflow)
                } else {
                    &&& appended(
                        r,
                        script_of(*old(builder)),
                        script_of(*final(builder)),
                        copy_chunks((k + *old(stack_depth)) as i64),
                    )
                    &&& r is Ok ==> r == Ok::<bool, CompilerError>(true) && *final(stack_depth)
                        == *old(stack_depth) + 1
                },
            },
    {
        let k = match self.depth_of(name) {
            None => {
                return Ok(false);
            },
            Some(k) => k,
        };
        if k as u64 > i64::MAX as u64 {
            return Err(CompilerError::ArithmeticOverflow);
        }
        let pos = match (k as i64).checked_add(*stack_depth) {
            Some(pos) => pos,
            None => {
                return Err(CompilerError::ArithmeticOverflow);
            },
        };
        let ghost s0 = script_of(*builder);
        if pos == 0 {
            add_op(builder, OP_DUP)?;
        } else {
            let r1 = add_int(builder, pos);
            proof {
                lemma_emits_append(s0, seq![Chunk::Int(pos)], seq![Chunk::Op(OP_PICK)]);
                assert(seq![Chunk::Int(pos)] + seq![Chunk::Op(OP_PICK)] == copy_chunks(pos));
            }
            r1?;
            let ghost s1 = script_of(*builder);
            let r = add_op(builder, OP_PICK);
            proof {
                lemma_appended_seq(s0, s1, script_of(*builder), seq![Chunk::Int(pos)], seq![Chunk::Op(OP_PICK)], r);
                assert(seq![Chunk::Int(pos)] + seq![Chunk::Op(OP_PICK)] == copy_chunks(pos));
            }
            r?;
        }
        *stack_depth = *stack_depth + 1;
        Ok(true)
    }
}

impl StackBindings {
    /// Removes the binding at depth `k`.
    fn remove_at(&mut self, k: usize)
        requires
            k < old(self)@.len(),
        ensures
            final(self)@ == old(self)@.remove(k as int),
    {
        self.names.remove(k);
        assert(self@ =~= old(self)@.remove(k as int));
    }

    /// Drops the values bound to `names`, one after another, from the stack.
    pub fn emit_drop_bindings(&mut self, names: &[String], builder: &mut ScriptBuilder) -> (r: Result<
        (),
        CompilerError,
    >)
        ensures
            match drop_plan(old(self)@, names@.map_values(|s: String| s@)) {
                Err(x) => r matches Err(e) && (e == x || e == CompilerError::ScriptRejected),
                Ok((cs, left)) => appended(r, script_of(*old(builder)), script_of(*final(builder)), cs)
                    && (r is Ok ==> final(self)@ == left),
            },
    {
        let ghost all = names@.map_values(|s: String| s@);
        let ghost plan = drop_plan(self@, all);
        let ghost s0 = script_of(*builder);
        let ghost mut done: Seq<Chunk> = Seq::empty();
        assert(all.skip(0) == all);
        assert(after_chunks(done, plan) == plan) by {
            if let Ok((c, _)) = plan {
                assert(done + c == c);
            }
        }
        for i in 0..names.len()
            invariant
                all == names@.map_values(|s: String| s@),
                plan == drop_plan(old(self)@, all),
                s0 == script_of(*old(builder)),
                plan == after_chunks(done, drop_plan(self@, all.skip(i as int))),
                emits(s0, done),
                script_of(*builder) == s0 + code_of(done),
        {
            assert(all.skip(i as int)[0] == names@[i as int]@);
            assert(all.skip(i as int).drop_first() == all.skip(i + 1));
            let k = match self.depth_of(names[i].as_str()) {
                None => {
                    assert(plan is Err);
                    return Err(CompilerError::StackMismatch);
                },
                Some(k) => k,
            };
            proof {
                lemma_binding_depth(self@, names@[i as int]@);
            }
            let ghost step = drop_chunks(k as nat);
            let ghost s1 = script_of(*builder);
            let ghost rest = drop_plan(self@.remove(k as int), all.skip(i + 1));
            assert(after_chunks(done, after_chunks(step, rest)) == after_chunks(done + step, rest)) by {
                if let Ok((c, _)) = rest {
                    assert(done + (step + c) == done + step + c);
                }
            }
            if k == 0 {
                let r = add_op(builder, OP_DROP);
                proof {
                    if r is Err {
                        lemma_after_chunks_refused(s0, done, step, rest);
                    } else {
                        lemma_emits_append(s0, done, step);
                        lemma_code_of_append(done, step);
                    }
                }
                r?;
            } else {
                let r1 = add_int(builder, k as i64);
                proof {
                    if r1 is Err {
                        lemma_emits_append(s1, seq![Chunk::Int(k as i64)], seq![Chunk::Op(OP_ROLL), Chunk::Op(OP_DROP)]);
                        assert(seq![Chunk::Int(k as i64)] + seq![Chunk::Op(OP_ROLL), Chunk::Op(OP_DROP)] == step);
                        lemma_after_chunks_refused(s0, done, step, rest);
                    }
                }
                r1?;
                let ghost s2 = script_of(*builder);
                let r2 = add_op(builder, OP_ROLL);
                proof {
                    lemma_appended_seq(s1, s2, script_of(*builder), seq![Chunk::Int(k as i64)], seq![Chunk::Op(OP_ROLL)], r2);
                    if r2 is Err {
                        lemma_emits_append(s1, seq![Chunk::Int(k as i64), Chunk::Op(OP_ROLL)], seq![Chunk::Op(OP_DROP)]);
                        assert(seq![Chunk::Int(k as i64)] + seq![Chunk::Op(OP_ROLL)] == seq![Chunk::Int(k as i64), Chunk::Op(OP_ROLL)]);
                        assert(seq![Chunk::Int(k as i64), Chunk::Op(OP_ROLL)] + seq![Chunk::Op(OP_DROP)] == step);
                        lemma_after_chunks_refused(s0, done, step, rest);
                    }
                }
                r2?;
                let ghost s3 = script_of(*builder);
                let r3 = add_op(builder, OP_DROP);
                proof {
                    assert(seq![Chunk::Int(k as i64)] + seq![Chunk::Op(OP_ROLL)] == seq![Chunk::Int(k as i64), Chunk::Op(OP_ROLL)]);
                    lemma_appended_seq(s1, s3, script_of(*builder), seq![Chunk::Int(k as i64), Chunk::Op(OP_ROLL)], seq![Chunk::Op(OP_DROP)], r3);
                    assert(seq![Chunk::Int(k as i64), Chunk::Op(OP_ROLL)] + seq![Chunk::Op(OP_DROP)] == step);
                    if r3 is Err {
                        lemma_after_chunks_refused(s0, done, step, rest);
                    } else {
                        lemma_emits_append(s0, done, step);
                        lemma_code_of_append(done, step);
                    }
                }
                r3?;
            }
            self.remove_at(k);
            proof {
                done = done + step;
            }
        }
        assert(all.skip(names@.len() as int) =~= Seq::<Seq<char>>::empty());
        assert(done + Seq::<Chunk>::empty() == done);
        Ok(())
    }
}

/// The code that removes the stale value of a binding at depth `k` once its new value is on top.
pub open spec fn rebind_chunks(k: nat) -> Seq<Chunk> {
    seq![Chunk::Int((k + 1) as i64), Chunk::Op(OP_ROLL), Chunk::Op(OP_DROP)]
}

impl StackBindings {
    /// With the new value of `name` on top of the stack, drops its old value and binds
    /// `name` to the top.
    pub fn emit_update_stack_for_rebinding(&mut self, name: &str, builder: &mut ScriptBuilder) -> (r:
        Result<(), CompilerError>)
        ensures
            match binding_depth(old(self)@, name@) {
                None => r matches Err(CompilerError::UndefinedIdentifier(n)) && n@ == name@
                    && script_of(*final(builder)) == script_of(*old(builder)),
                Some(k) => if k + 1 > i64::MAX {
                    r == Err::<(), CompilerError>(CompilerError::ArithmeticOverflow)
                } else {
                    &&& appended(r, script_of(*old(builder)), script_of(*final(builder)), rebind_chunks(k))
                    &&& r is Ok ==> final(self)@ == seq![name@] + old(self)@.remove(k as int)
                },
            },
    {
        let k = match self.depth_of(name) {
            None => {
                return Err(CompilerError::UndefinedIdentifier(name.to_owned()));
            },
            Some(k) => k,
        };
        proof {
            lemma_binding_depth(self@, name@);
        }
        if k as u64 >= i64::MAX as u64 {
            return Err(CompilerError::ArithmeticOverflow);
        }
        let pos = k as i64 + 1;
        let ghost s0 = script_of(*builder);
        let ghost a = seq![Chunk::Int(pos)];
        let ghost b = seq![Chunk::Op(OP_ROLL)];
        let ghost c = seq![Chunk::Op(OP_DROP)];
        assert(a + b + c == rebind_chunks(k as nat));
        let r1 = add_int(builder, pos);
        proof {
            lemma_emits_append(s0, a, b + c);
            assert(a + (b + c) == a + b + c);
        }
        r1?;
        let ghost s1 = script_of(*builder);
        let r2 = add_op(builder, OP_ROLL);
        proof {
            lemma_appended_seq(s0, s1, script_of(*builder), a, b, r2);
            lemma_emits_append(s0, a + b, c);
        }
        r2?;
        let ghost s2 = script_of(*builder);
        let r3 = add_op(builder, OP_DROP);
        proof {
            lemma_appended_seq(s0, s2, script_of(*builder), a + b, c, r3);
        }
        r3?;
        self.remove_at(k);
        self.push_binding(name);
        Ok(())
    }

    /// Reorders the stack from these bindings to `target`'s order.
    pub fn emit_stack_reordering(&self, target: &StackBindings, builder: &mut ScriptBuilder) -> (r:
        Result<(), CompilerError>)
        ensures
            self@.len() != target@.len() ==> r == Err::<(), CompilerError>(CompilerError::StackMismatch)
                && script_of(*final(builder)) == script_of(*old(builder)),
            self@.len() == target@.len() ==> match reorder_plan(self@, target@, target@.len() as int) {
                Err(x) => r matches Err(e) && (e == x || e == CompilerError::ScriptRejected),
                Ok((cs, _)) => appended(r, script_of(*old(builder)), script_of(*final(builder)), cs),
            },
    {
        if self.len() != target.len() {
            return Err(CompilerError::StackMismatch);
        }
        let ghost plan = reorder_plan(self@, target@, target@.len() as int);
        let ghost s0 = script_of(*builder);
        let ghost mut done: Seq<Chunk> = Seq::empty();
        assert(after_chunks(done, plan) == plan) by {
            if let Ok((c, _)) = plan {
                assert(done + c == c);
            }
        }
        let mut current = self.clone();
        let mut j = target.len();
        while j > 0
            invariant
                j <= target@.len(),
                self@.len() == target@.len(),
                target@.len() == target.names@.len(),
                plan == reorder_plan(self@, target@, target@.len() as int),
                s0 == script_of(*old(builder)),
                plan == after_chunks(done, reorder_plan(current@, target@, j as int)),
                emits(s0, done),
                script_of(*builder) == s0 + code_of(done),
            decreases j,
        {
            j = j - 1;
            let name = &target.names[j];
            assert(target@[j as int] == name@);
            let k = match current.depth_of(name.as_str()) {
                None => {
                    assert(plan is Err);
                    return Err(CompilerError::StackMismatch);
                },
                Some(k) => k,
            };
            proof {
                lemma_binding_depth(current@, name@);
            }
            if k != 0 {
                let ghost step = seq![Chunk::Int(k as i64), Chunk::Op(OP_ROLL)];
                let ghost rest = reorder_plan(seq![name@] + current@.remove(k as int), target@, j as int);
                assert(after_chunks(done, after_chunks(step, rest)) == after_chunks(done + step, rest)) by {
                    if let Ok((c, _)) = rest {
                        assert(done + (step + c) == done + step + c);
                    }
                }
                let ghost s1 = script_of(*builder);
                let r1 = add_int(builder, k as i64);
                proof {
                    lemma_emits_append(s1, seq![Chunk::Int(k as i64)], seq![Chunk::Op(OP_ROLL)]);
                    assert(seq![Chunk::Int(k as i64)] + seq![Chunk::Op(OP_ROLL)] == step);
                    if r1 is Err {
                        lemma_after_chunks_refused(s0, done, step, rest);
                    }
                }
                r1?;
                let ghost s2 = script_of(*builder);
                let r2 = add_op(builder, OP_ROLL);
                proof {
                    lemma_appended_seq(s1, s2, script_of(*builder), seq![Chunk::Int(k as i64)], seq![Chunk::Op(OP_ROLL)], r2);
                    if r2 is Err {
                        lemma_after_chunks_refused(s0, done, step, rest);
                    } else {
                        lemma_emits_append(s0, done, step);
                        lemma_code_of_append(done, step);
                    }
                }
                r2?;
                current.remove_at(k);
                current.push_binding(name.as_str());
                proof {
                    done = done + step;
                }
            }
        }
        assert(done + Seq::<Chunk>::empty() == done);
        Ok(())
    }
}

impl Clone for StackBindings {
    fn clone(&self) -> (r: Self)
        ensures
            r@ == self@,
    {
        StackBindings { names: self.binding_order() }
    }
}

impl View for StackBindings {
    type V = Seq<Seq<char>>;

    open spec fn view(&self) -> Seq<Seq<char>> {
        self.names()
    }
}

} // verus!
