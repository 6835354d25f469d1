//! Semantic analysis of an instruction list: block balance checking and
//! the assignment of a tape cell to every named variable.
//!
//! Variables are numbered `0..` in order of first appearance. An operand
//! position that needs a previously written value must name a variable
//! that is already known; other positions register the variable on first
//! sight. A fresh name must be a letter followed by letters, digits,
//! `_` or `-`.

use vstd::prelude::*;
use vstd::string::StrSliceExecFns;
use crate::instruction::{Instruction, nesting_delta};

verus! {

/// An error found while analysing an instruction list.
#[derive(Debug, Clone, PartialEq)]
pub enum AnalysisError {
    /// A fresh variable name does not match the identifier rules.
    InvalidVariableName { v: String },
    /// A variable was used where a prior value is needed, before any
    /// instruction wrote it.
    VariableMustBeAssigned { v: String },
    /// Block openers and `End` markers do not pair up.
    UnevenAmountOfBlocks,
}

/// Spec-level mirror of `AnalysisError`, over character sequences.
pub enum AnalysisErrorSpec {
    InvalidVariableName(Seq<char>),
    VariableMustBeAssigned(Seq<char>),
    UnevenAmountOfBlocks,
}

/// What an `AnalysisError` value says, at the spec level.
pub open spec fn err_view(e: AnalysisError) -> AnalysisErrorSpec {
    match e {
        AnalysisError::InvalidVariableName { v } => AnalysisErrorSpec::InvalidVariableName(v@),
        AnalysisError::VariableMustBeAssigned { v } => AnalysisErrorSpec::VariableMustBeAssigned(v@),
        AnalysisError::UnevenAmountOfBlocks => AnalysisErrorSpec::UnevenAmountOfBlocks,
    }
}

/// The running opener/closer count of a whole list.
pub open spec fn nesting_sum(instrs: Seq<Instruction>) -> int
    decreases instrs.len(),
{
    if instrs.len() == 0 {
        0
    } else {
        nesting_sum(instrs.drop_last()) + nesting_delta(instrs.last())
    }
}

/// A list is balanced when every prefix has at least as many openers as
/// closers and the whole list has exactly as many.
pub open spec fn balanced(instrs: Seq<Instruction>) -> bool {
    &&& nesting_sum(instrs) == 0
    &&& forall|k: int| 0 <= k <= instrs.len() ==> nesting_sum(#[trigger] instrs.take(k)) >= 0
}

/// First character of a variable name: a letter.
pub open spec fn is_name_start(c: char) -> bool {
    let u = c as u32;
    (65 <= u && u <= 90) || (97 <= u && u <= 122)
}

/// Later characters of a variable name: letters, digits, `_` or `-`.
pub open spec fn is_name_char(c: char) -> bool {
    let u = c as u32;
    is_name_start(c) || (48 <= u && u <= 57) || u == 95 || u == 45
}

/// A well-formed variable name.
pub open spec fn valid_name(s: Seq<char>) -> bool {
    &&& s.len() > 0
    &&& is_name_start(s[0])
    &&& forall|i: int| 0 <= i < s.len() ==> is_name_char(#[trigger] s[i])
}

/// The variable operands of one instruction, in the order the analyzer
/// visits them, each marked with whether a prior value is required.
pub open spec fn operands(i: Instruction) -> Seq<(Seq<char>, bool)> {
    match i {
        Instruction::Copy { a, b } => seq![(a@, true), (b@, false)],
        Instruction::Assign(a, _) => seq![(a@, false)],
        Instruction::Inc(a) => seq![(a@, false)],
        Instruction::Dec(a) => seq![(a@, false)],
        Instruction::IncBy(a, _) => seq![(a@, false)],
        Instruction::DecBy(a, _) => seq![(a@, false)],
        Instruction::Read(a) => seq![(a@, false)],
        Instruction::Print(a) => seq![(a@, true)],
        Instruction::PrintMsg(_) => seq![],
        Instruction::PrintC(a) => seq![(a@, true)],
        Instruction::Add { a, b } => seq![(a@, true), (b@, true)],
        Instruction::Sub { a, b } => seq![(a@, true), (b@, true)],
        Instruction::Mul { a, b } => seq![(a@, true), (b@, true)],
        Instruction::Div { a, b, quotient, remainder } =>
            seq![(a@, true), (b@, true), (remainder@, false), (quotient@, false)],
        Instruction::IfEqual { a, b } => seq![(a@, true), (b@, true)],
        Instruction::IfEqualConst { a, .. } => seq![(a@, true)],
        Instruction::IfNotEqualConst { a, .. } => seq![(a@, true)],
        Instruction::IfNotEqual { a, b } => seq![(a@, true), (b@, true)],
        Instruction::UntilEqual { a, b } => seq![(a@, true), (b@, true)],
        Instruction::WhileNotZero(a) => seq![(a@, true)],
        Instruction::End => seq![],
        Instruction::Compare { a, b, res } => seq![(a@, true), (b@, true), (res@, false)],
        Instruction::Push(a) => seq![(a@, true)],
        Instruction::Pop(a) => seq![(a@, false)],
        Instruction::Match(a, _) => seq![(a@, true)],
        Instruction::Case() => seq![],
        Instruction::Raw(_) => seq![],
    }
}

/// Register one operand against the variables seen so far.
pub open spec fn register_spec(
    vars: Seq<Seq<char>>,
    name: Seq<char>,
    must_be_defined: bool,
) -> Result<Seq<Seq<char>>, AnalysisErrorSpec> {
    if must_be_defined && !vars.contains(name) {
        Err(AnalysisErrorSpec::VariableMustBeAssigned(name))
    } else if vars.contains(name) {
        Ok(vars)
    } else if !valid_name(name) {
        Err(AnalysisErrorSpec::InvalidVariableName(name))
    } else {
        Ok(vars.push(name))
    }
}

/// Register a list of operands, left to right, stopping at the first error.
pub open spec fn register_operands_spec(
    vars: Seq<Seq<char>>,
    ops: Seq<(Seq<char>, bool)>,
) -> Result<Seq<Seq<char>>, AnalysisErrorSpec>
    decreases ops.len(),
{
    if ops.len() == 0 {
        Ok(vars)
    } else {
        match register_spec(vars, ops[0].0, ops[0].1) {
            Ok(v) => register_operands_spec(v, ops.drop_first()),
            Err(e) => Err(e),
        }
    }
}

/// Walk the instruction list, registering every operand in order.
pub open spec fn register_instructions_spec(
    vars: Seq<Seq<char>>,
    instrs: Seq<Instruction>,
) -> Result<Seq<Seq<char>>, AnalysisErrorSpec>
    decreases instrs.len(),
{
    if instrs.len() == 0 {
        Ok(vars)
    } else {
        match register_operands_spec(vars, operands(instrs[0])) {
            Ok(v) => register_instructions_spec(v, instrs.drop_first()),
            Err(e) => Err(e),
        }
    }
}

/// The variable table an instruction list defines: each variable's cell
/// index is its position, in order of first appearance.
pub open spec fn build_vars_spec(
    instrs: Seq<Instruction>,
) -> Result<Seq<Seq<char>>, AnalysisErrorSpec> {
    register_instructions_spec(seq![], instrs)
}

/// The variable table and count shared by the code generator: the result
/// of a successful analysis.
#[derive(Debug, Clone, PartialEq)]
pub struct InstructionsAnalysis {
    variables: Vec<String>,
}

impl InstructionsAnalysis {
    /// The table as a sequence of names; a name's position is its cell.
    pub closed spec fn vars(&self) -> Seq<Seq<char>> {
        self.variables@.map_values(|s: String| s@)
    }

    /// Check that openers and `End` markers pair up (`End` never closes
    /// a block that was not opened, and none stays open).
    fn sanity_check(instructions: &Vec<Instruction>) -> (r: Result<(), AnalysisError>)
        ensures
            r is Ok <==> balanced(instructions@),
            r is Err ==> r->Err_0 == AnalysisError::UnevenAmountOfBlocks,
    {
        let n = instructions.len();
        let mut nesting: usize = 0;
        let mut i: usize = 0;
        while i < n
            invariant
                i <= n,
                n == instructions@.len(),
                nesting == nesting_sum(instructions@.take(i as int)),
                nesting <= i,
                forall|k: int| 0 <= k <= i ==> nesting_sum(#[trigger] instructions@.take(k)) >= 0,
            decreases n - i,
        {
            proof {
                assert(instructions@.take(i + 1).drop_last() =~= instructions@.take(i as int));
                assert(instructions@.take(i + 1).last() == instructions@[i as int]);
            }
            match &instructions[i] {
                Instruction::IfEqual { .. }
                | Instruction::IfNotEqual { .. }
                | Instruction::UntilEqual { .. }
                | Instruction::WhileNotZero(..)
                | Instruction::IfNotEqualConst { .. }
                | Instruction::IfEqualConst { .. }
                | Instruction::Match(..) => {
                    nesting = nesting + 1;
                }
                Instruction::End => {
                    if nesting == 0 {
                        // This `End` closes nothing: some prefix dips below zero.
                        return Err(AnalysisError::UnevenAmountOfBlocks);
                    }
                    nesting = nesting - 1;
                }
                _ => {}
            }
            i = i + 1;
        }
        proof {
            assert(instructions@.take(n as int) =~= instructions@);
        }
        if nesting != 0 {
            return Err(AnalysisError::UnevenAmountOfBlocks);
        }
        Ok(())
    }

    /// Check one name against the identifier rules.
    fn is_valid_name(name: &str) -> (b: bool)
        ensures
            b == valid_name(name@),
    {
        let n = name.unicode_len();
        if n == 0 {
            return false;
        }
        let c0 = name.get_char(0);
        let u0 = c0 as u32;
        if !((65 <= u0 && u0 <= 90) || (97 <= u0 && u0 <= 122)) {
            return false;
        }
        let mut i: usize = 1;
        while i < n
            invariant
                1 <= i <= n,
                n == name@.len(),
                is_name_start(name@[0]),
                forall|k: int| 0 <= k < i ==> is_name_char(#[trigger] name@[k]),
            decreases n - i,
        {
            let c = name.get_char(i);
            let u = c as u32;
            if !((65 <= u && u <= 90) || (97 <= u && u <= 122)
                || (48 <= u && u <= 57) || u == 95 || u == 45)
            {
                return false;
            }
            i = i + 1;
        }
        true
    }

    /// Register one operand in the growing table.
    fn register(
        vars: &mut Vec<String>,
        name: &String,
        must_be_defined: bool,
    ) -> (r: Result<(), AnalysisError>)
        ensures
            match register_spec(old(vars)@.map_values(|s: String| s@), name@, must_be_defined) {
                Ok(v) => r is Ok && final(vars)@.map_values(|s: String| s@) == v,
                Err(e) => r is Err && err_view(r->Err_0) == e && *final(vars) == *old(vars),
            },
    {
        let ghost gvars = vars@.map_values(|s: String| s@);
        let mut j: usize = 0;
        let n = vars.len();
        let mut found = false;
        while j < n && !found
            invariant
                j <= n,
                n == vars@.len(),
                gvars == vars@.map_values(|s: String| s@),
                found ==> j < n && vars@[j as int]@ == name@,
                !found ==> forall|k: int| 0 <= k < j ==> vars@[k]@ != name@,
            decreases n - j + (if found { 0int } else { 1int }),
        {
            if vars[j].eq(name) {
                found = true;
            } else {
                j = j + 1;
            }
        }
        proof {
            if found {
                assert(gvars[j as int] == name@);
                assert(gvars.contains(name@));
            } else {
                assert(forall|k: int| 0 <= k < gvars.len() ==> gvars[k] != name@);
                assert(!gvars.contains(name@));
            }
        }
        if must_be_defined && !found {
            return Err(AnalysisError::VariableMustBeAssigned { v: name.clone() });
        }
        if found {
            return Ok(());
        }
        if !Self::is_valid_name(name.as_str()) {
            return Err(AnalysisError::InvalidVariableName { v: name.clone() });
        }
        vars.push(name.clone());
        proof {
            assert(vars@.map_values(|s: String| s@) =~= gvars.push(name@));
        }
        Ok(())
    }

    /// Build the variable table for a whole instruction list.
    fn build_variable_hashmap(
        instructions: &Vec<Instruction>,
    ) -> (r: Result<Vec<String>, AnalysisError>)
        ensures
            match build_vars_spec(instructions@) {
                Ok(v) => r is Ok && r->Ok_0@.map_values(|s: String| s@) == v,
                Err(e) => r is Err && err_view(r->Err_0) == e,
            },
    {
        let mut vars: Vec<String> = Vec::new();
        let n = instructions.len();
        let mut i: usize = 0;
        proof {
            assert(vars@.map_values(|s: String| s@) =~= Seq::<Seq<char>>::empty());
        }
        while i < n
            invariant
                i <= n,
                n == instructions@.len(),
                register_instructions_spec(seq![], instructions@.take(i as int))
                    == Ok::<_, AnalysisErrorSpec>(vars@.map_values(|s: String| s@)),
            decreases n - i,
        {
            let ghost pre = vars@.map_values(|s: String| s@);
            let r = Self::register_instruction_vars(&mut vars, &instructions[i]);
            proof {
                lemma_register_take_step(instructions@, i as int, pre);
            }
            if let Err(e) = r {
                proof {
                    lemma_register_extend_err(instructions@, i + 1);
                }
                return Err(e);
            }
            i = i + 1;
        }
        proof {
            assert(instructions@.take(n as int) =~= instructions@);
        }
        Ok(vars)
    }

    /// Register the operands of a single instruction.
    fn register_instruction_vars(
        vars: &mut Vec<String>,
        instruction: &Instruction,
    ) -> (r: Result<(), AnalysisError>)
        ensures
            match register_operands_spec(
                old(vars)@.map_values(|s: String| s@),
                operands(*instruction),
            ) {
                Ok(v) => r is Ok && final(vars)@.map_values(|s: String| s@) == v,
                Err(e) => r is Err && err_view(r->Err_0) == e,
            },
    {
        proof {
            reveal_with_fuel(register_operands_spec, 8);
        }
        match instruction {
            Instruction::Copy { a, b } => {
                Self::register(vars, a, true)?;
                Self::register(vars, b, false)?;
            }
            Instruction::Assign(a, _) => {
                Self::register(vars, a, false)?;
            }
            Instruction::Inc(a) => {
                Self::register(vars, a, false)?;
            }
            Instruction::Dec(a) => {
                Self::register(vars, a, false)?;
            }
            Instruction::IncBy(a, _) => {
                Self::register(vars, a, false)?;
            }
            Instruction::DecBy(a, _) => {
                Self::register(vars, a, false)?;
            }
            Instruction::Read(a) => {
                Self::register(vars, a, false)?;
            }
            Instruction::Print(a) => {
                Self::register(vars, a, true)?;
            }
            Instruction::PrintMsg(_) => {}
            Instruction::PrintC(a) => {
                Self::register(vars, a, true)?;
            }
            Instruction::Add { a, b } => {
                Self::register(vars, a, true)?;
                Self::register(vars, b, true)?;
            }
            Instruction::Sub { a, b } => {
                Self::register(vars, a, true)?;
                Self::register(vars, b, true)?;
            }
            Instruction::Mul { a, b } => {
                Self::register(vars, a, true)?;
                Self::register(vars, b, true)?;
            }
            Instruction::Div { a, b, quotient, remainder } => {
                Self::register(vars, a, true)?;
                Self::register(vars, b, true)?;
                Self::register(vars, remainder, false)?;
                Self::register(vars, quotient, false)?;
            }
            Instruction::IfEqual { a, b } => {
                Self::register(vars, a, true)?;
                Self::register(vars, b, true)?;
            }
            Instruction::IfEqualConst { a, .. } => {
                Self::register(vars, a, true)?;
            }
            Instruction::IfNotEqualConst { a, .. } => {
                Self::register(vars, a, true)?;
            }
            Instruction::IfNotEqual { a, b } => {
                Self::register(vars, a, true)?;
                Self::register(vars, b, true)?;
            }
            Instruction::UntilEqual { a, b } => {
                Self::register(vars, a, true)?;
                Self::register(vars, b, true)?;
            }
            Instruction::WhileNotZero(a) => {
                Self::register(vars, a, true)?;
            }
            Instruction::End => {}
            Instruction::Compare { a, b, res } => {
                Self::register(vars, a, true)?;
                Self::register(vars, b, true)?;
                Self::register(vars, res, false)?;
            }
            Instruction::Push(a) => {
                Self::register(vars, a, true)?;
            }
            Instruction::Pop(a) => {
                Self::register(vars, a, false)?;
            }
            Instruction::Match(a, _) => {
                Self::register(vars, a, true)?;
            }
            Instruction::Case() => {}
            Instruction::Raw(_) => {}
        }
        Ok(())
    }

    /// Analyse an instruction list: block balance first, then variable
    /// registration. On success the table lists every variable any
    /// instruction names, in first-appearance order.
    pub fn new(instructions: &Vec<Instruction>) -> (r: Result<Self, AnalysisError>)
        ensures
            r is Ok <==> balanced(instructions@) && build_vars_spec(instructions@) is Ok,
            r is Ok ==> r->Ok_0.vars() == build_vars_spec(instructions@)->Ok_0,
            !balanced(instructions@) ==> r == Err::<Self, _>(AnalysisError::UnevenAmountOfBlocks),
            balanced(instructions@) && build_vars_spec(instructions@) is Err ==>
                r is Err && err_view(r->Err_0) == build_vars_spec(instructions@)->Err_0,
    {
        Self::sanity_check(instructions)?;
        let variables = Self::build_variable_hashmap(instructions)?;
        Ok(InstructionsAnalysis { variables })
    }

    /// How many variables the analysed list uses.
    pub fn variable_count(&self) -> (n: usize)
        ensures
            n == self.vars().len(),
    {
        self.variables.len()
    }

    /// The cell index of a variable, if the analysed list names it:
    /// the first position holding the name.
    pub fn index_of(&self, name: &String) -> (r: Option<usize>)
        ensures
            match r {
                Some(i) => i < self.vars().len() && self.vars()[i as int] == name@ && i as int
                    == first_index_of(self.vars(), name@),
                None => !self.vars().contains(name@),
            },
    {
        let n = self.variables.len();
        let mut j: usize = 0;
        while j < n
            invariant
                j <= n,
                n == self.variables@.len(),
                forall|k: int| 0 <= k < j ==> self.variables@[k]@ != name@,
            decreases n - j,
        {
            if self.variables[j].eq(name) {
                proof {
                    assert(self.vars()[j as int] == self.variables@[j as int]@);
                    assert forall|k: int| 0 <= k < j implies self.vars()[k] != name@ by {
                        assert(self.vars()[k] == self.variables@[k]@);
                    }
                    lemma_first_index_at(self.vars(), name@, j as int);
                }
                return Some(j);
            }
            j = j + 1;
        }
        proof {
            assert forall|k: int| 0 <= k < self.vars().len() implies self.vars()[k] != name@ by {
                assert(self.vars()[k] == self.variables@[k]@);
            }
        }
        None
    }
}

impl Default for InstructionsAnalysis {
    /// An empty table, as used before any list has been analysed.
    fn default() -> (r: Self)
        ensures
            r.vars() == Seq::<Seq<char>>::empty(),
    {
        let r = InstructionsAnalysis { variables: Vec::new() };
        proof {
            assert(r.vars() =~= Seq::<Seq<char>>::empty());
        }
        r
    }
}

/// Extending a prefix by one instruction extends the registration fold.
proof fn lemma_register_take_step(instrs: Seq<Instruction>, i: int, pre: Seq<Seq<char>>)
    requires
        0 <= i < instrs.len(),
        register_instructions_spec(seq![], instrs.take(i)) == Ok::<_, AnalysisErrorSpec>(pre),
    ensures
        register_instructions_spec(seq![], instrs.take(i + 1))
            == register_operands_spec(pre, operands(instrs[i])),
{
    reveal_with_fuel(register_instructions_spec, 4);
    lemma_register_snoc(seq![], instrs.take(i + 1));
    assert(instrs.take(i + 1).drop_last() =~= instrs.take(i));
    assert(instrs.take(i + 1).last() == instrs[i]);
}

/// Once a prefix of the list fails to register, the whole list fails
/// with the same error.
proof fn lemma_register_extend_err(instrs: Seq<Instruction>, k: int)
    requires
        0 <= k <= instrs.len(),
        register_instructions_spec(seq![], instrs.take(k)) is Err,
    ensures
        register_instructions_spec(seq![], instrs) == register_instructions_spec(
            seq![],
            instrs.take(k),
        ),
    decreases instrs.len() - k,
{
    if k == instrs.len() {
        assert(instrs.take(k) =~= instrs);
    } else {
        lemma_register_snoc(seq![], instrs.take(k + 1));
        assert(instrs.take(k + 1).drop_last() =~= instrs.take(k));
        lemma_register_extend_err(instrs, k + 1);
    }
}

/// Unrolling the instruction fold from the right.
proof fn lemma_register_snoc(vars: Seq<Seq<char>>, instrs: Seq<Instruction>)
    requires
        instrs.len() > 0,
    ensures
        register_instructions_spec(vars, instrs) == match register_instructions_spec(
            vars,
            instrs.drop_last(),
        ) {
            Ok(v) => register_operands_spec(v, operands(instrs.last())),
            Err(e) => Err(e),
        },
    decreases instrs.len(),
{
    reveal_with_fuel(register_instructions_spec, 4);
    if instrs.len() == 1 {
        assert(instrs.drop_last() =~= Seq::<Instruction>::empty());
        assert(instrs.drop_first() =~= Seq::<Instruction>::empty());
        assert(instrs[0] == instrs.last());
    } else {
        match register_operands_spec(vars, operands(instrs[0])) {
            Ok(v) => {
                lemma_register_snoc(v, instrs.drop_first());
                assert(instrs.drop_first().drop_last() =~= instrs.drop_last().drop_first());
                assert(instrs.drop_first().last() == instrs.last());
                assert(instrs.drop_last()[0] == instrs[0]);
                assert(instrs.drop_last().len() > 0);
            }
            Err(_) => {
                assert(instrs.drop_last()[0] == instrs[0]);
            }
        }
    }
}

/// One variable table extends another.
pub open spec fn table_extends(longer: Seq<Seq<char>>, shorter: Seq<Seq<char>>) -> bool {
    &&& shorter.len() <= longer.len()
    &&& forall|k: int| 0 <= k < shorter.len() ==> longer[k] == shorter[k]
}

/// Membership survives extension of the table.
proof fn lemma_extends_contains(longer: Seq<Seq<char>>, shorter: Seq<Seq<char>>, x: Seq<char>)
    requires
        table_extends(longer, shorter),
        shorter.contains(x),
    ensures
        longer.contains(x),
{
    let k = choose|k: int| 0 <= k < shorter.len() && shorter[k] == x;
    assert(longer[k] == x);
}

/// Successful registration of an operand list only appends to the
/// table and leaves every listed name in it.
proof fn lemma_register_ops_extends(vars: Seq<Seq<char>>, ops: Seq<(Seq<char>, bool)>)
    requires
        register_operands_spec(vars, ops) is Ok,
    ensures
        table_extends(register_operands_spec(vars, ops)->Ok_0, vars),
        forall|j: int| 0 <= j < ops.len() ==> register_operands_spec(vars, ops)->Ok_0.contains(
            (#[trigger] ops[j]).0,
        ),
    decreases ops.len(),
{
    if ops.len() == 0 {
    } else {
        let v1 = register_spec(vars, ops[0].0, ops[0].1)->Ok_0;
        assert(v1.contains(ops[0].0)) by {
            if !vars.contains(ops[0].0) {
                assert(v1 == vars.push(ops[0].0));
                assert(v1[v1.len() - 1] == ops[0].0);
            }
        }
        lemma_register_ops_extends(v1, ops.drop_first());
        let fin = register_operands_spec(v1, ops.drop_first())->Ok_0;
        lemma_extends_contains(fin, v1, ops[0].0);
        assert forall|j: int| 0 <= j < ops.len() implies fin.contains((#[trigger] ops[j]).0) by {
            if j > 0 {
                assert(ops.drop_first()[j - 1] == ops[j]);
            }
        }
    }
}

/// Successful registration of a whole list only appends to the table
/// and leaves every operand name of every instruction in it.
proof fn lemma_register_instrs_extends(vars: Seq<Seq<char>>, instrs: Seq<Instruction>)
    requires
        register_instructions_spec(vars, instrs) is Ok,
    ensures
        table_extends(register_instructions_spec(vars, instrs)->Ok_0, vars),
        forall|i: int, j: int|
            0 <= i < instrs.len() && 0 <= j < operands(instrs[i]).len()
                ==> register_instructions_spec(vars, instrs)->Ok_0.contains(
                (#[trigger] operands(instrs[i])[j]).0,
            ),
    decreases instrs.len(),
{
    if instrs.len() == 0 {
    } else {
        let v1 = register_operands_spec(vars, operands(instrs[0]))->Ok_0;
        lemma_register_ops_extends(vars, operands(instrs[0]));
        lemma_register_instrs_extends(v1, instrs.drop_first());
        let fin = register_instructions_spec(v1, instrs.drop_first())->Ok_0;
        assert forall|i: int, j: int|
            0 <= i < instrs.len() && 0 <= j < operands(instrs[i]).len() implies fin.contains(
            (#[trigger] operands(instrs[i])[j]).0,
        ) by {
            if i == 0 {
                lemma_extends_contains(fin, v1, operands(instrs[0])[j].0);
            } else {
                assert(instrs.drop_first()[i - 1] == instrs[i]);
            }
        }
    }
}

/// After a successful analysis, the table holds every variable any
/// instruction names.
pub proof fn lemma_build_vars_complete(instrs: Seq<Instruction>)
    requires
        build_vars_spec(instrs) is Ok,
    ensures
        forall|i: int, j: int|
            0 <= i < instrs.len() && 0 <= j < operands(instrs[i]).len()
                ==> build_vars_spec(instrs)->Ok_0.contains(
                (#[trigger] operands(instrs[i])[j]).0,
            ),
{
    lemma_register_instrs_extends(seq![], instrs);
}

/// The cell of a name in the table: its first (and only) position.
pub open spec fn first_index_of(vars: Seq<Seq<char>>, name: Seq<char>) -> int
    decreases vars.len(),
{
    if vars.len() == 0 {
        0
    } else if vars[0] == name {
        0
    } else {
        1 + first_index_of(vars.drop_first(), name)
    }
}

/// A position holding the name, with nothing equal before it, is the
/// first index.
pub proof fn lemma_first_index_at(vars: Seq<Seq<char>>, name: Seq<char>, j: int)
    requires
        0 <= j < vars.len(),
        vars[j] == name,
        forall|k: int| 0 <= k < j ==> vars[k] != name,
    ensures
        first_index_of(vars, name) == j,
    decreases j,
{
    if j > 0 {
        assert(vars.drop_first()[j - 1] == name);
        assert forall|k: int| 0 <= k < j - 1 implies vars.drop_first()[k] != name by {
            assert(vars.drop_first()[k] == vars[k + 1]);
        }
        lemma_first_index_at(vars.drop_first(), name, j - 1);
    }
}

} // verus!
