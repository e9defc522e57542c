//! Code blocks: the implementations of a code definition and the choice
//! among them.

use vstd::prelude::*;
use crate::model::{CodeArgument, CodeImplArgument, CodeModifier, CodeReturn, Constant, FullConstant, Opcode, constant_view};
use crate::text::{owned, push_str, push_decimal, decimal};

verus! {

/// One implementation of a code block.
#[derive(Clone, Debug)]
pub struct ImplBlock {
    pub arguments: Vec<CodeImplArgument>,
    pub results: Vec<CodeReturn>,
    pub command: Option<Opcode>,
}

/// Whether an argument of an implementation accepts a value: a register
/// accepts anything, a constant only the same atomic constant.
pub open spec fn arg_unifies(d: CodeImplArgument, v: Option<FullConstant>) -> bool {
    match d {
        CodeImplArgument::Register(_) => true,
        CodeImplArgument::Constant(a) => match v {
            Some(FullConstant::Atomic(b)) => constant_view(a) == constant_view(b),
            _ => false,
        },
    }
}

/// Whether an implementation accepts the values: each argument that has a
/// value beside it accepts it.
pub open spec fn unifies_spec(imp: ImplBlock, args: Seq<Option<FullConstant>>) -> bool {
    forall|i: int| 0 <= i < imp.arguments@.len() && 0 <= i < args.len() ==> arg_unifies(
        #[trigger] imp.arguments@[i],
        args[i],
    )
}

/// Whether an argument is register `reg`.
pub open spec fn is_register(a: CodeImplArgument, reg: usize) -> bool {
    a matches CodeImplArgument::Register(v) && v.reg_id == reg
}

/// The last index of an argument that is register `reg`, if any.
pub open spec fn last_register(args: Seq<CodeImplArgument>, reg: usize) -> Option<int>
    decreases args.len(),
{
    if args.len() == 0 {
        None
    } else if is_register(args.last(), reg) {
        Some(args.len() - 1)
    } else {
        last_register(args.drop_last(), reg)
    }
}

/// The pairs (result index, argument index) of the first `k` results
/// that repeat an argument register, if each of them is found.
pub open spec fn repeat_pairs(results: Seq<CodeReturn>, args: Seq<CodeImplArgument>, k: int) -> Option<
    Seq<(usize, usize)>,
>
    decreases k,
{
    if k <= 0 {
        Some(Seq::empty())
    } else {
        match repeat_pairs(results, args, k - 1) {
            None => None,
            Some(s) => match results[k - 1] {
                CodeReturn::Register(_) => Some(s),
                CodeReturn::Repeat(e) => match last_register(args, e) {
                    Some(p) => Some(s.push(((k - 1) as usize, p as usize))),
                    None => None,
                },
            },
        }
    }
}

proof fn lemma_last_register(args: Seq<CodeImplArgument>, reg: usize)
    ensures
        match last_register(args, reg) {
            Some(p) => 0 <= p < args.len() && is_register(args[p], reg) && forall|j: int| p < j < args.len()
                ==> !is_register(#[trigger] args[j], reg),
            None => forall|j: int| 0 <= j < args.len() ==> !is_register(#[trigger] args[j], reg),
        },
    decreases args.len(),
{
    if args.len() > 0 {
        let d = args.drop_last();
        lemma_last_register(d, reg);
        if !is_register(args.last(), reg) {
            match last_register(d, reg) {
                Some(p) => {
                    assert(args[p] == d[p]);
                    assert forall|j: int| p < j < args.len() implies !is_register(#[trigger] args[j], reg) by {
                        if j < args.len() - 1 {
                            assert(args[j] == d[j]);
                        }
                    }
                },
                None => {
                    assert forall|j: int| 0 <= j < args.len() implies !is_register(#[trigger] args[j], reg) by {
                        if j < args.len() - 1 {
                            assert(args[j] == d[j]);
                        }
                    }
                },
            }
        }
    }
}

impl ImplBlock {
    /// Whether this implementation accepts the given (possibly unknown)
    /// argument values.
    pub fn unifies(&self, args: &[Option<FullConstant>]) -> (r: bool)
        ensures
            r == unifies_spec(*self, args@),
    {
        let mut i: usize = 0;
        while i < self.arguments.len() && i < args.len()
            invariant
                i <= self.arguments@.len(),
                forall|j: int| 0 <= j < i && j < args@.len() ==> arg_unifies(#[trigger] self.arguments@[j], args@[j]),
            decreases self.arguments@.len() - i,
        {
            match (&self.arguments[i], &args[i]) {
                (CodeImplArgument::Register(_), _) => {},
                (CodeImplArgument::Constant(a), Some(FullConstant::Atomic(b))) => {
                    if !a.same_as(b) {
                        return false;
                    }
                },
                _ => {
                    return false;
                },
            }
            i += 1;
        }
        true
    }

    /// For each result that repeats an argument register, the pair (result
    /// index, index of the last argument that is that register).
    pub fn reg_reuse(&self) -> (r: Result<Vec<(usize, usize)>, String>)
        ensures
            match repeat_pairs(self.results@, self.arguments@, self.results@.len() as int) {
                Some(s) => r matches Ok(v) && v@ == s,
                None => r matches Err(e) && e@ == "return repeat register not in argument list"@,
            },
    {
        let mut repeats: Vec<(usize, usize)> = Vec::new();
        let mut i: usize = 0;
        while i < self.results.len()
            invariant
                i <= self.results@.len(),
                repeat_pairs(self.results@, self.arguments@, i as int) == Some(repeats@),
            decreases self.results@.len() - i,
        {
            match &self.results[i] {
                CodeReturn::Register(_) => {},
                CodeReturn::Repeat(e) => {
                    match self.last_register(*e) {
                        Some(pos) => {
                            repeats.push((i, pos));
                        },
                        None => {
                            proof {
                                lemma_repeat_pairs_stuck(self.results@, self.arguments@, i + 1, self.results@.len() as int);
                            }
                            return Err(owned("return repeat register not in argument list"));
                        },
                    }
                },
            }
            i += 1;
        }
        Ok(repeats)
    }

    /// The last index of an argument that is register `reg`, if any.
    fn last_register(&self, reg: usize) -> (r: Option<usize>)
        ensures
            match last_register(self.arguments@, reg) {
                Some(p) => r == Some(p as usize),
                None => r is None,
            },
    {
        proof {
            lemma_last_register(self.arguments@, reg);
        }
        let mut found: Option<usize> = None;
        let mut i: usize = 0;
        while i < self.arguments.len()
            invariant
                i <= self.arguments@.len(),
                match found {
                    Some(p) => p < i && is_register(self.arguments@[p as int], reg) && forall|j: int| p < j < i
                        ==> !is_register(#[trigger] self.arguments@[j], reg),
                    None => forall|j: int| 0 <= j < i ==> !is_register(#[trigger] self.arguments@[j], reg),
                },
            decreases self.arguments@.len() - i,
        {
            match &self.arguments[i] {
                CodeImplArgument::Register(v) => {
                    if v.reg_id == reg {
                        found = Some(i);
                    }
                },
                CodeImplArgument::Constant(_) => {},
            }
            i += 1;
        }
        proof {
            lemma_last_register(self.arguments@, reg);
            match last_register(self.arguments@, reg) {
                Some(p) => {
                    match found {
                        Some(q) => {
                            if q < p {
                                assert(!is_register(self.arguments@[p], reg));
                            } else if q > p {
                                assert(!is_register(self.arguments@[q as int], reg));
                            }
                        },
                        None => {
                            assert(!is_register(self.arguments@[p], reg));
                        },
                    }
                },
                None => {
                    if let Some(q) = found {
                        assert(!is_register(self.arguments@[q as int], reg));
                    }
                },
            }
        }
        found
    }
}

/// Once a result cannot be matched, none of the longer prefixes can.
proof fn lemma_repeat_pairs_stuck(results: Seq<CodeReturn>, args: Seq<CodeImplArgument>, k: int, n: int)
    requires
        0 < k <= n,
        repeat_pairs(results, args, k) is None,
    ensures
        repeat_pairs(results, args, n) is None,
    decreases n - k,
{
    if k < n {
        lemma_repeat_pairs_stuck(results, args, k + 1, n);
    }
}

/// A code block: its arguments and results, implementations and
/// modifiers.
#[derive(Clone, Debug)]
pub struct CodeBlock {
    pub name: String,
    pub arguments: Vec<CodeArgument>,
    pub results: Vec<CodeArgument>,
    pub impls: Vec<ImplBlock>,
    pub modifiers: Vec<CodeModifier>,
}

impl CodeBlock {
    /// The indexes of the implementations that accept the given values, in
    /// order.
    pub fn choose_imps(&self, args: &[Option<FullConstant>]) -> (r: Vec<usize>)
        ensures
            forall|k: int, l: int| 0 <= k < l < r@.len() ==> #[trigger] r@[k] < #[trigger] r@[l],
            forall|k: int| 0 <= k < r@.len() ==> #[trigger] r@[k] < self.impls@.len(),
            forall|j: int| 0 <= j < self.impls@.len() ==> (r@.contains(j as usize) <==> unifies_spec(
                #[trigger] self.impls@[j],
                args@,
            )),
    {
        let mut r: Vec<usize> = Vec::new();
        let mut i: usize = 0;
        while i < self.impls.len()
            invariant
                i <= self.impls@.len(),
                forall|k: int, l: int| 0 <= k < l < r@.len() ==> #[trigger] r@[k] < #[trigger] r@[l],
                forall|k: int| 0 <= k < r@.len() ==> #[trigger] r@[k] < i,
                forall|j: int| 0 <= j < i ==> (r@.contains(j as usize) <==> unifies_spec(
                    #[trigger] self.impls@[j],
                    args@,
                )),
            decreases self.impls@.len() - i,
        {
            let ghost before = r@;
            if self.impls[i].unifies(args) {
                r.push(i);
            }
            proof {
                assert forall|j: int| 0 <= j <= i implies (r@.contains(j as usize) <==> unifies_spec(
                    #[trigger] self.impls@[j],
                    args@,
                )) by {
                    if j < i {
                        if r@.contains(j as usize) && !before.contains(j as usize) {
                            let k = choose|k: int| 0 <= k < r@.len() && r@[k] == j as usize;
                            assert(k == before.len());
                        }
                        if before.contains(j as usize) {
                            let k = choose|k: int| 0 <= k < before.len() && before[k] == j as usize;
                            assert(r@[k] == j as usize);
                        }
                    } else {
                        if r@.contains(j as usize) && r@ == before {
                            let k = choose|k: int| 0 <= k < before.len() && before[k] == j as usize;
                            assert(before[k] < i);
                        }
                        if r@ != before {
                            assert(r@[before.len() as int] == i);
                        }
                    }
                }
            }
            i += 1;
        }
        r
    }

    /// Whether the block carries the `world` modifier.
    pub fn is_world(&self) -> (r: bool)
        ensures
            r == exists|i: int| 0 <= i < self.modifiers@.len() && #[trigger] self.modifiers@[i] is World,
    {
        let mut i: usize = 0;
        while i < self.modifiers.len()
            invariant
                i <= self.modifiers@.len(),
                forall|j: int| 0 <= j < i ==> !(#[trigger] self.modifiers@[j] is World),
            decreases self.modifiers@.len() - i,
        {
            if self.modifiers[i].is_world() {
                return true;
            }
            i += 1;
        }
        false
    }
}

/// The blocks that make up one code definition; all return the same
/// number of values.
#[derive(Clone, Debug)]
pub struct CodeDefinition {
    ret_count: Option<usize>,
    blocks: Vec<CodeBlock>,
}

/// The message for a block whose result count differs.
pub open spec fn ret_count_message(got: usize, want: usize) -> Seq<char> {
    "code blocks must match in return value count: "@ + decimal(got as nat) + " vs "@ + decimal(want as nat)
}

impl CodeDefinition {
    /// The blocks, in the order they were added.
    pub closed spec fn blocks(&self) -> Seq<CodeBlock> {
        self.blocks@
    }

    /// The number of results of every block, once there is one.
    pub closed spec fn spec_ret_count(&self) -> Option<usize> {
        self.ret_count
    }

    /// No blocks.
    pub fn new() -> (r: CodeDefinition)
        ensures
            r.blocks() == Seq::<CodeBlock>::empty(),
            r.spec_ret_count() is None,
    {
        CodeDefinition { ret_count: None, blocks: Vec::new() }
    }

    /// Adds a block, which must return as many values as those before.
    pub fn add(&mut self, alt: CodeBlock) -> (r: Result<(), String>)
        ensures
            match old(self).spec_ret_count() {
                Some(n) if n != alt.results@.len() => {
                    &&& r matches Err(e) && e@ == ret_count_message(alt.results@.len() as usize, n)
                    &&& final(self).blocks() == old(self).blocks()
                    &&& final(self).spec_ret_count() == old(self).spec_ret_count()
                },
                _ => {
                    &&& r is Ok
                    &&& final(self).blocks() == old(self).blocks().push(alt)
                    &&& final(self).spec_ret_count() == Some(alt.results@.len() as usize)
                },
            },
    {
        let n = alt.results.len();
        let want = match self.ret_count {
            Some(c) => c,
            None => {
                self.ret_count = Some(n);
                n
            },
        };
        if want != n {
            let mut e = owned("code blocks must match in return value count: ");
            push_decimal(&mut e, n as u64);
            push_str(&mut e, " vs ");
            push_decimal(&mut e, want as u64);
            proof {
                reveal_strlit("code blocks must match in return value count: ");
                reveal_strlit(" vs ");
                assert(e@ =~= ret_count_message(n, want));
            }
            return Err(e);
        }
        self.blocks.push(alt);
        Ok(())
    }

    /// The number of results of every block.
    pub fn ret_count(&self) -> (r: usize)
        requires
            self.spec_ret_count() is Some,
        ensures
            Some(r) == self.spec_ret_count(),
    {
        self.ret_count.unwrap()
    }

    /// The number of blocks.
    pub fn block_count(&self) -> (r: usize)
        ensures
            r == self.blocks().len(),
    {
        self.blocks.len()
    }

    /// The block at `index`.
    pub fn get_block(&self, index: usize) -> (r: &CodeBlock)
        requires
            index < self.blocks().len(),
        ensures
            *r == self.blocks()[index as int],
    {
        &self.blocks[index]
    }
}

/// Every block returns as many values as the count, and there is a count
/// once there is a block.
pub open spec fn blocks_agree(blocks: Seq<CodeBlock>, count: Option<usize>) -> bool {
    match count {
        None => blocks.len() == 0,
        Some(n) => forall|i: int| 0 <= i < blocks.len() ==> #[trigger] blocks[i].results@.len() == n,
    }
}

/// Adding a block to a code definition, refused or not, keeps every block
/// returning as many values as the others.
pub proof fn lemma_add_keeps_agreement(blocks: Seq<CodeBlock>, count: Option<usize>, alt: CodeBlock)
    requires
        blocks_agree(blocks, count),
    ensures
        match count {
            Some(n) if n != alt.results@.len() => blocks_agree(blocks, count),
            _ => blocks_agree(blocks.push(alt), Some(alt.results@.len() as usize)),
        },
{
    match count {
        Some(n) if n != alt.results@.len() => {},
        _ => {
            let b2 = blocks.push(alt);
            assert(alt.results.len() == alt.results@.len());
            assert forall|i: int| 0 <= i < b2.len() implies #[trigger] b2[i].results@.len() == alt.results@.len() as usize by {
                if i < blocks.len() {
                    assert(b2[i] == blocks[i]);
                }
            }
        },
    }
}

} // verus!
