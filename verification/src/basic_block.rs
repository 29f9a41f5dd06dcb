//! Basic blocks and their identifiers.

use vstd::prelude::*;

verus! {

/// Unique identifier for a basic block: its index in the graph.
#[derive(Clone, Copy, PartialEq, Eq, Structural, Hash, Debug, PartialOrd, Ord)]
pub struct BlockId(pub usize);

impl BlockId {
    /// The identifier of the entry block (index 0 by convention).
    pub fn entry() -> (r: BlockId)
        ensures
            r.0 == 0,
    {
        BlockId(0)
    }

    /// Returns the raw index.
    pub fn index(self) -> (r: usize)
        ensures
            r == self.0,
    {
        self.0
    }
}

/// A simple instruction placeholder.
#[derive(Clone, Debug, PartialEq, Eq)]
pub enum Instruction {
    /// No-op / placeholder.
    Nop,
    /// Assignment: target = value.
    Assign { target: String, value: String },
    /// Binary operation.
    BinOp { dest: String, op: String, lhs: String, rhs: String },
    /// Conditional branch.
    Branch { cond: String },
    /// Unconditional jump target.
    Jump { target: BlockId },
    /// Return.
    Return { value: Option<String> },
    /// Phi node.
    Phi { dest: String, sources: Vec<(BlockId, String)> },
}

/// Whether an instruction ends a block: a branch, a jump or a return.
pub open spec fn is_terminator(i: Instruction) -> bool {
    ||| i is Branch
    ||| i is Jump
    ||| i is Return
}

/// Law: exactly the branches, jumps and returns end a block; a no-op, an
/// assignment, a binary operation or a phi node never does.
pub proof fn law_terminators(i: Instruction)
    ensures
        is_terminator(i) <==> (i matches Instruction::Branch { .. } || i matches Instruction::Jump { .. }
            || i matches Instruction::Return { .. }),
        (i matches Instruction::Nop || i matches Instruction::Assign { .. }
            || i matches Instruction::BinOp { .. } || i matches Instruction::Phi { .. }) ==> !is_terminator(i),
{
}

/// The block's last instruction is a return.
pub open spec fn ends_in_return(b: BasicBlock) -> bool {
    b.instructions@.len() > 0 && b.instructions@.last() is Return
}

/// A basic block containing a sequence of instructions.
#[derive(Clone, Debug)]
pub struct BasicBlock {
    pub id: BlockId,
    pub instructions: Vec<Instruction>,
    pub predecessors: Vec<BlockId>,
    pub successors: Vec<BlockId>,
}

/// The list `v` after adding `x` as a set element: unchanged when `x` is
/// already there, otherwise `x` appended at the end.
pub open spec fn add_once(v: Seq<BlockId>, x: BlockId) -> Seq<BlockId> {
    if v.contains(x) {
        v
    } else {
        v.push(x)
    }
}

/// Whether `x` occurs in `v`.
pub fn contains_id(v: &Vec<BlockId>, x: BlockId) -> (r: bool)
    ensures
        r == v@.contains(x),
{
    let mut i: usize = 0;
    while i < v.len()
        invariant
            i <= v.len(),
            forall|j: int| 0 <= j < i ==> v@[j] != x,
        decreases v.len() - i,
    {
        if v[i] == x {
            assert(v@[i as int] == x);
            return true;
        }
        i = i + 1;
    }
    false
}

/// Membership after `add_once`: the old members and the added one.
pub proof fn lemma_add_once_contains(v: Seq<BlockId>, x: BlockId, y: BlockId)
    ensures
        add_once(v, x).contains(y) <==> (v.contains(y) || y == x),
{
    if !v.contains(x) {
        if v.contains(y) {
            let k = choose|k: int| 0 <= k < v.len() && v[k] == y;
            assert(v.push(x)[k] == y);
        }
        if y == x {
            assert(v.push(x)[v.len() as int] == x);
        }
        if v.push(x).contains(y) {
            let k = choose|k: int| 0 <= k < v.push(x).len() && v.push(x)[k] == y;
            if k < v.len() {
                assert(v[k] == y);
            }
        }
    }
}

/// Adding with `add_once` keeps a list free of repeats, and the added element is there.
pub proof fn lemma_add_once_keeps_distinct(v: Seq<BlockId>, x: BlockId)
    requires
        v.no_duplicates(),
    ensures
        add_once(v, x).no_duplicates(),
        add_once(v, x).contains(x),
{
    if !v.contains(x) {
        assert(v.push(x)[v.len() as int] == x);
        assert forall|i: int, j: int|
            0 <= i < v.push(x).len() && 0 <= j < v.push(x).len() && i != j implies v.push(x)[i]
            != v.push(x)[j] by {
            if i < v.len() && j < v.len() {
            } else if i < v.len() {
                assert(v.contains(v[i]));
            } else {
                assert(v.contains(v[j]));
            }
        }
    }
}

impl BasicBlock {
    /// Create a new empty basic block.
    pub fn new(id: BlockId) -> (r: Self)
        ensures
            r.id == id,
            r.instructions@.len() == 0,
            r.predecessors@.len() == 0,
            r.successors@.len() == 0,
    {
        BasicBlock {
            id,
            instructions: Vec::new(),
            predecessors: Vec::new(),
            successors: Vec::new(),
        }
    }

    /// Add an instruction.
    pub fn push(&mut self, instr: Instruction)
        ensures
            final(self).id == old(self).id,
            final(self).instructions@ == old(self).instructions@.push(instr),
            final(self).predecessors@ == old(self).predecessors@,
            final(self).successors@ == old(self).successors@,
    {
        self.instructions.push(instr);
    }

    /// Number of instructions.
    pub fn len(&self) -> (r: usize)
        ensures
            r == self.instructions@.len(),
    {
        self.instructions.len()
    }

    /// Returns true if no instructions.
    pub fn is_empty(&self) -> (r: bool)
        ensures
            r == (self.instructions@.len() == 0),
    {
        self.instructions.len() == 0
    }

    /// Returns true if this block ends with a terminator.
    pub fn is_terminated(&self) -> (r: bool)
        ensures
            r == (self.instructions@.len() > 0 && is_terminator(self.instructions@.last())),
            r == (self.instructions@.len() > 0 && (self.instructions@.last() matches Instruction::Branch { .. }
                || self.instructions@.last() matches Instruction::Jump { .. }
                || self.instructions@.last() matches Instruction::Return { .. })),
    {
        proof {
            if self.instructions@.len() > 0 {
                law_terminators(self.instructions@.last());
            }
        }
        let n = self.instructions.len();
        if n == 0 {
            return false;
        }
        match &self.instructions[n - 1] {
            Instruction::Branch { .. } => true,
            Instruction::Jump { .. } => true,
            Instruction::Return { .. } => true,
            _ => false,
        }
    }

    /// Add a successor edge (at most once).
    pub fn add_successor(&mut self, succ: BlockId)
        ensures
            final(self).id == old(self).id,
            final(self).instructions@ == old(self).instructions@,
            final(self).predecessors@ == old(self).predecessors@,
            final(self).successors@ == add_once(old(self).successors@, succ),
            old(self).successors@.no_duplicates() ==> final(self).successors@.no_duplicates(),
    {
        proof {
            if old(self).successors@.no_duplicates() {
                lemma_add_once_keeps_distinct(old(self).successors@, succ);
            }
        }
        if !contains_id(&self.successors, succ) {
            self.successors.push(succ);
        }
    }

    /// Add a predecessor edge (at most once).
    pub fn add_predecessor(&mut self, pred: BlockId)
        ensures
            final(self).id == old(self).id,
            final(self).instructions@ == old(self).instructions@,
            final(self).successors@ == old(self).successors@,
            final(self).predecessors@ == add_once(old(self).predecessors@, pred),
            old(self).predecessors@.no_duplicates() ==> final(self).predecessors@.no_duplicates(),
    {
        proof {
            if old(self).predecessors@.no_duplicates() {
                lemma_add_once_keeps_distinct(old(self).predecessors@, pred);
            }
        }
        if !contains_id(&self.predecessors, pred) {
            self.predecessors.push(pred);
        }
    }
}

} // verus!
