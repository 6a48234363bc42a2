use vstd::prelude::*;

use crate::frontend::ast::{seq_loops, NodeModel, AST};
use crate::ir::inst::Inst;
use crate::ir::labels::{labels_well_formed, law_lowered_labels_well_formed, law_optimize_keeps_labels_well_formed};
use crate::ir::lowering::{lower_program, Lowerer};
use crate::ir::optimizers::{moves_fit, optimize, PeepholeOptimizer};

verus! {

/// Why a syntax tree has no intermediate representation.
#[derive(Debug)]
pub enum IRError {
    /// The tree holds an unmatched bracket; the tree is handed back.
    BadAST(AST),
    /// Only levels 0 and 1 exist.
    UnsupportedOptLevel(i32),
}

/// A lowered, possibly optimised, instruction sequence.
pub struct IR {
    insts: Vec<Inst>,
}

impl View for IR {
    type V = Seq<Inst>;

    closed spec fn view(&self) -> Seq<Inst> {
        self.insts@
    }
}

/// What lowering the tree and then applying optimisation level `opt_level`
/// gives: the tree is lowered first, so an invalid tree is reported whatever
/// the level; level 0 keeps the lowered instructions, level 1 optimises them.
pub open spec fn ir_result(ast: AST, opt_level: i32) -> Result<Seq<Inst>, IRError> {
    match lower_program(ast@) {
        None => Err(IRError::BadAST(ast)),
        Some(insts) => if opt_level == 0 {
            Ok(insts)
        } else if opt_level == 1 {
            Ok(optimize(insts))
        } else {
            Err(IRError::UnsupportedOptLevel(opt_level))
        },
    }
}

/// Optimising the lowered instructions sums each run of moves in an `i32`;
/// this holds where every such sum fits.
pub open spec fn ir_within_limits(ast: Seq<NodeModel>, opt_level: i32) -> bool {
    &&& 2 * seq_loops(ast) <= usize::MAX
    &&& opt_level == 1 ==> (lower_program(ast) matches Some(insts) ==> moves_fit(insts))
}

impl IR {
    /// Lowers the tree and applies optimisation level `opt_level`; the
    /// instructions define each label once and jump only to defined labels.
    pub fn new(ast: AST, opt_level: i32) -> (r: Result<Self, IRError>)
        requires
            ir_within_limits(ast@, opt_level),
        ensures
            match (r, ir_result(ast, opt_level)) {
                (Ok(ir), Ok(insts)) => ir@ == insts,
                (Err(e), Err(f)) => e == f,
                _ => false,
            },
            r matches Ok(ir) ==> labels_well_formed(ir@),
    {
        proof {
            law_lowered_labels_well_formed(ast@);
            if let Some(insts) = lower_program(ast@) {
                law_optimize_keeps_labels_well_formed(insts);
            }
        }
        let lowerer = Lowerer::new();
        let mut insts = match lowerer.build(&ast) {
            None => return Err(IRError::BadAST(ast)),
            Some(x) => x,
        };

        match opt_level {
            0 => (),
            1 => {
                let optimizer = PeepholeOptimizer::new(insts.as_slice());
                insts = optimizer.optimize();
            },
            _ => return Err(IRError::UnsupportedOptLevel(opt_level)),
        }

        Ok(Self { insts })
    }

    pub fn instructions(&self) -> (r: &[Inst])
        ensures
            r@ == self@,
    {
        self.insts.as_slice()
    }
}

} // verus!
