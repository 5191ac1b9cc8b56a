//! The per-function artifact: a sanitized program representation together
//! with the borrow-check facts the points-to analysis needs.

use vstd::prelude::*;

verus! {

/// Debug metadata attached to one source scope of a representation: either
/// still carrying a back-reference to an item of the originating process
/// (meaningless in any other process) or already cleared for cross-unit use.
#[derive(Clone, Copy, PartialEq, Eq, Debug)]
pub enum ScopeData {
    /// A scope-local back-reference, valid only inside the process that
    /// produced the representation.
    Local(u32),
    /// The scope carries no process-local data.
    Clear,
}

/// One instruction of the control-flow representation. Only the shapes the
/// sanitizer must distinguish are modeled: a diagnostic-only fake read, the
/// no-op it is rewritten to, and an ordinary semantic statement.
#[derive(Clone, Copy, PartialEq, Eq, Debug)]
pub enum Statement {
    /// An ordinary statement with semantic effect, as (destination, source).
    Assign(u32, u32),
    /// A diagnostic-only read with no semantic effect on the analysis.
    FakeRead(u32),
    /// A statement with no effect.
    Nop,
}

/// One node of the control-flow graph: a straight-line run of statements.
#[derive(Clone, PartialEq, Eq, Debug)]
pub struct BasicBlock {
    pub statements: Vec<Statement>,
}

/// A function's program representation: its source scopes and its
/// control-flow graph.
#[derive(Clone, PartialEq, Eq, Debug)]
pub struct Repr {
    pub source_scopes: Vec<ScopeData>,
    pub basic_blocks: Vec<BasicBlock>,
}

/// Mathematical model of a [`Repr`].
#[verifier::ext_equal]
pub ghost struct ReprV {
    pub source_scopes: Seq<ScopeData>,
    pub basic_blocks: Seq<Seq<Statement>>,
}

impl View for BasicBlock {
    type V = Seq<Statement>;

    open spec fn view(&self) -> Seq<Statement> {
        self.statements@
    }
}

impl View for Repr {
    type V = ReprV;

    open spec fn view(&self) -> ReprV {
        ReprV {
            source_scopes: self.source_scopes@,
            basic_blocks: self.basic_blocks@.map_values(|b: BasicBlock| b@),
        }
    }
}

/// The subset of the borrow-check engine's facts that the points-to
/// analysis needs: pairs asserting that one inferred region is a subset of
/// another.
#[derive(Clone, PartialEq, Eq, Debug)]
pub struct FlowistryFacts {
    pub subset_base: Vec<(u32, u32)>,
}

impl View for FlowistryFacts {
    type V = Seq<(u32, u32)>;

    open spec fn view(&self) -> Seq<(u32, u32)> {
        self.subset_base@
    }
}

/// A raw fact as the borrow-check engine reports it: two region variables
/// plus the point of inference, which the analysis does not need.
pub type RawFact = (u32, u32, u32);

/// A program representation and the borrow-check facts for one function,
/// ready to be bundled and persisted.
#[derive(Clone, PartialEq, Eq, Debug)]
pub struct CachedBody {
    pub body: Repr,
    pub input_facts: FlowistryFacts,
}

/// Mathematical model of a [`CachedBody`].
#[verifier::ext_equal]
pub ghost struct CachedBodyV {
    pub body: ReprV,
    pub subset_base: Seq<(u32, u32)>,
}

impl View for CachedBody {
    type V = CachedBodyV;

    open spec fn view(&self) -> CachedBodyV {
        CachedBodyV { body: self.body@, subset_base: self.input_facts@ }
    }
}

/// The failures this library reports instead of aborting: each names an
/// inconsistent or out-of-order build environment.
#[derive(Clone, Copy, PartialEq, Eq, Debug)]
pub enum CacheError {
    /// The borrow-check engine was run without fact output, or produced none.
    MissingFacts,
    /// No candidate location for a unit's bundle exists on disk.
    BundleNotFound,
    /// A bundle file exists but does not hold a well-formed encoding.
    DecodeFailed,
    /// A unit's bundle loaded but lacks the requested item: the unit was
    /// depended upon before its own collection pass ran.
    MissingItem,
}

/// What one statement becomes under the sanitizer: a fake read turns into a
/// no-op, everything else is kept.
pub open spec fn sanitize_statement(s: Statement) -> Statement {
    match s {
        Statement::FakeRead(_) => Statement::Nop,
        _ => s,
    }
}

/// What a representation becomes under the sanitizer: every source scope is
/// cleared and every diagnostic-only statement is neutralized.
pub open spec fn sanitize_repr(r: ReprV) -> ReprV {
    ReprV {
        source_scopes: Seq::new(r.source_scopes.len(), |i: int| ScopeData::Clear),
        basic_blocks: r.basic_blocks.map_values(
            |b: Seq<Statement>| b.map_values(|s: Statement| sanitize_statement(s)),
        ),
    }
}

/// Strip from a representation everything that is not valid outside the
/// originating process: scope-local debug back-references and diagnostic-only
/// fake reads.
pub fn clean_undecodable_data_from_body(body: &mut Repr)
    ensures
        final(body)@ == sanitize_repr(old(body)@),
{
    let cleaned = sanitized_copy(body);
    *body = cleaned;
}

/// The sanitized form of a representation, built without touching the
/// original.
pub fn sanitized_copy(body: &Repr) -> (r: Repr)
    ensures
        r@ == sanitize_repr(body@),
{
    let mut scopes: Vec<ScopeData> = Vec::new();
    let n_scopes = body.source_scopes.len();
    for i in 0..n_scopes
        invariant
            scopes@.len() == i,
            forall|k: int| 0 <= k < i ==> scopes@[k] == ScopeData::Clear,
    {
        scopes.push(ScopeData::Clear);
    }
    let mut blocks: Vec<BasicBlock> = Vec::new();
    let n_blocks = body.basic_blocks.len();
    for i in 0..n_blocks
        invariant
            n_blocks == body.basic_blocks@.len(),
            blocks@.len() == i,
            forall|k: int|
                0 <= k < i ==> #[trigger] blocks@[k]@ == body.basic_blocks@[k]@.map_values(
                    |s: Statement| sanitize_statement(s),
                ),
    {
        let mut stmts: Vec<Statement> = Vec::new();
        let n_stmts = body.basic_blocks[i].statements.len();
        for j in 0..n_stmts
            invariant
                0 <= i < body.basic_blocks@.len(),
                n_stmts == body.basic_blocks@[i as int]@.len(),
                stmts@.len() == j,
                forall|k: int|
                    0 <= k < j ==> stmts@[k] == sanitize_statement(
                        #[trigger] body.basic_blocks@[i as int]@[k],
                    ),
        {
            let s = body.basic_blocks[i].statements[j];
            let cleaned = match s {
                Statement::FakeRead(_) => Statement::Nop,
                other => other,
            };
            stmts.push(cleaned);
        }
        proof {
            assert(stmts@ =~= body.basic_blocks@[i as int]@.map_values(
                |s: Statement| sanitize_statement(s),
            ));
        }
        blocks.push(BasicBlock { statements: stmts });
    }
    let r = Repr { source_scopes: scopes, basic_blocks: blocks };
    proof {
        assert(r@.source_scopes =~= sanitize_repr(body@).source_scopes);
        assert forall|k: int| 0 <= k < n_blocks implies #[trigger] r@.basic_blocks[k]
            == sanitize_repr(body@).basic_blocks[k] by {
            assert(r@.basic_blocks[k] == blocks@[k]@);
            assert(sanitize_repr(body@).basic_blocks[k] == body@.basic_blocks[k].map_values(
                |s: Statement| sanitize_statement(s),
            ));
        }
        assert(r@.basic_blocks =~= sanitize_repr(body@).basic_blocks);
        assert(r@ =~~= sanitize_repr(body@));
    }
    r
}

/// Sanitizing a representation twice yields the same result as sanitizing it
/// once: the sanitizer is idempotent, so it may run unconditionally before
/// every persisted artifact is produced.
pub proof fn lemma_sanitize_idempotent(r: ReprV)
    ensures
        sanitize_repr(sanitize_repr(r)) == sanitize_repr(r),
{
    assert forall|s: Statement|
        #[trigger] sanitize_statement(sanitize_statement(s)) == sanitize_statement(s) by {
    }
    assert(sanitize_repr(sanitize_repr(r)).source_scopes =~= sanitize_repr(r).source_scopes);
    let once = sanitize_repr(r).basic_blocks;
    let twice = sanitize_repr(sanitize_repr(r)).basic_blocks;
    assert forall|i: int| 0 <= i < once.len() implies twice[i] =~= once[i] by {
        assert forall|j: int| 0 <= j < once[i].len() implies twice[i][j] == once[i][j] by {}
    }
    assert(twice =~~= once);
    assert(sanitize_repr(sanitize_repr(r)) =~~= sanitize_repr(r));
}

/// What the two-region form of the engine's raw fact output is: the endpoint
/// pair of every fact, in order, with the point of inference discarded.
pub open spec fn project_facts(raw: Seq<RawFact>) -> Seq<(u32, u32)> {
    raw.map_values(|f: RawFact| (f.0, f.1))
}

impl CachedBody {
    /// Build the artifact for one local item from what the borrow-check
    /// engine returned: sanitize the representation and keep of each raw
    /// fact only its region pair. The engine reports facts only when asked
    /// for them; their absence is an environment misconfiguration and is
    /// reported as such.
    pub fn retrieve(body: &Repr, raw_facts: Option<&Vec<RawFact>>) -> (r: Result<
        CachedBody,
        CacheError,
    >)
        ensures
            r is Ok <==> raw_facts is Some,
            r is Err ==> r == Result::<CachedBody, CacheError>::Err(CacheError::MissingFacts),
            r matches Ok(c) ==> c@.body == sanitize_repr(body@) && c@.subset_base == project_facts(
                raw_facts.unwrap()@,
            ),
    {
        let raw = match raw_facts {
            Some(raw) => raw,
            None => {
                return Err(CacheError::MissingFacts);
            },
        };
        let body = sanitized_copy(body);
        let mut subset_base: Vec<(u32, u32)> = Vec::new();
        let n = raw.len();
        for i in 0..n
            invariant
                n == raw@.len(),
                subset_base@ =~= project_facts(raw@.take(i as int)),
        {
            let (v1, v2, _) = raw[i];
            subset_base.push((v1, v2));
            proof {
                assert(raw@.take(i + 1).drop_last() =~= raw@.take(i as int));
            }
        }
        proof {
            assert(raw@.take(n as int) =~= raw@);
        }
        Ok(CachedBody { body, input_facts: FlowistryFacts { subset_base } })
    }

    /// The sanitized program representation.
    pub fn body(&self) -> (r: &Repr)
        ensures
            r@ == self@.body,
    {
        &self.body
    }

    /// The region-subset pairs, in the order the engine reported them.
    pub fn input_facts_subset_base(&self) -> (r: &Vec<(u32, u32)>)
        ensures
            r@ == self@.subset_base,
    {
        &self.input_facts.subset_base
    }
}

} // verus!
