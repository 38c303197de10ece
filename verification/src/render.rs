//! The lowering of a plan into a network of operators.
//!
//! A plan is a tree of relational operations. To render it is to give every
//! operation a node of a dataflow, wired to the nodes of its inputs. Every
//! node that stands for a collection comes with a second node for the
//! errors of that collection: an operation that can fail adds to the
//! errors of its input, and one that cannot hands them on as they are.
//!
//! Bindings that refer to themselves are rendered around feedback
//! variables: a variable is made for every binding, the binding is rendered
//! with the variable in scope, and then the variable is defined by what was
//! rendered, which closes the loop.

use crate::arrangement::Frontier;
use vstd::prelude::*;

verus! {

/// The name of a collection: known to the whole system, or bound within a
/// plan.
#[derive(Debug, Clone, Copy, PartialEq, Eq, Structural)]
pub enum Id {
    Global(u64),
    Local(u64),
}

/// How long a binding that refers to itself is iterated.
#[derive(Debug, Clone, Copy, PartialEq, Eq, Structural)]
pub struct LetRecLimit {
    /// The most iterations. It is at least one.
    pub max_iters: u64,
    /// Whether what the iterations have come to at the limit is the result.
    /// Otherwise going beyond the limit is an error.
    pub return_at_limit: bool,
}

/// An error of evaluation that a row of the error collection holds.
#[derive(Debug, Clone, PartialEq, Eq)]
pub enum EvalError {
    /// A binding was iterated more often than its limit allows. The limit
    /// is named in decimal digits.
    LetRecLimitExceeded(String),
}

/// Why a plan was not rendered.
#[derive(Debug, Clone, Copy, PartialEq, Eq, Structural)]
pub enum RenderError {
    /// A collection is referred to that is not bound.
    GetNotFound(Id),
    /// A binding would shadow a binding of the same name.
    Shadowed(Id),
    /// A binding that refers to itself stands where none may stand.
    UnexpectedLetRec,
    /// The bindings of a `LetRec` do not come with as many values and
    /// limits.
    MalformedLetRec,
    /// Bindings that refer to themselves are nested deeper than can be
    /// counted.
    NestedTooDeep,
    /// An export refers to a collection that was not built.
    ExportNotFound(u64),
}

/// How a join is carried out.
#[derive(Debug, Clone, Copy, PartialEq, Eq, Structural)]
pub enum JoinPlan {
    Linear,
    Delta,
}

/// A plan: what is to be computed, as a tree of operations.
#[derive(Debug)]
pub enum Plan {
    /// Rows that are known beforehand, each with a time and a difference,
    /// or an error in their place.
    Constant { rows: Vec<(u64, u64, i64)>, error: Option<u64> },
    /// A collection that is bound, as it is or mapped and filtered.
    Get { id: Id, identity: bool },
    /// `body` with `value` bound to `id`.
    Let { id: u64, value: Box<Plan>, body: Box<Plan> },
    /// `body` with `values` bound to `ids`, where the values may refer to
    /// all of the ids.
    LetRec { ids: Vec<u64>, values: Vec<Plan>, limits: Vec<Option<LetRecLimit>>, body: Box<Plan> },
    /// The rows of `input` mapped, filtered and projected.
    Mfp { input: Box<Plan>, identity: bool },
    /// The rows of `input`, each replaced by the rows that a function
    /// makes of it.
    FlatMap { input: Box<Plan> },
    /// The join of `inputs`.
    Join { inputs: Vec<Plan>, plan: JoinPlan },
    /// The rows of `input` grouped and reduced.
    Reduce { input: Box<Plan> },
    /// The first rows of every group of `input`.
    TopK { input: Box<Plan> },
    /// The rows of `input` with their differences negated.
    Negate { input: Box<Plan> },
    /// The rows of `input` that are there at least once.
    Threshold { input: Box<Plan> },
    /// The rows of all `inputs` together.
    Union { inputs: Vec<Plan>, consolidate_output: bool },
    /// `input`, arranged by keys.
    ArrangeBy { input: Box<Plan> },
}

/// A node of a dataflow. Its inputs are nodes by their places in the
/// dataflow.
#[derive(Debug, Clone, PartialEq, Eq)]
pub enum Operator {
    /// Emits `rows`, each at its time.
    Constant { rows: Vec<(u64, u64, i64)> },
    /// Emits the error `error` at `time`, or nothing.
    ConstantErrors { error: Option<u64>, time: u64 },
    /// What is read of a source or an index outside the dataflow.
    Import { id: u64 },
    /// The errors of a source or an index outside the dataflow.
    ImportErrors { id: u64 },
    /// Holds back announcements of progress up to `as_of`.
    SuppressEarlyProgress { input: usize, as_of: Frontier },
    /// Maps, filters and projects.
    Mfp { input: usize },
    /// The errors of the evaluation of the node `of`, with the errors of
    /// `input`.
    EvalErrors { input: usize, of: usize },
    FlatMap { input: usize },
    Join { inputs: Vec<usize>, plan: JoinPlan },
    Reduce { input: usize },
    TopK { input: usize },
    Negate { input: usize },
    Threshold { input: usize },
    /// All the updates of all `inputs`.
    Concat { inputs: Vec<usize> },
    /// The updates of `input`, those that cancel one another left out.
    Consolidate { input: usize },
    ArrangeBy { input: usize },
    /// A feedback variable. What it holds in one iteration is what its
    /// definition held in the iteration before.
    Variable { level: usize },
    /// The updates of `input` of the iterations before the limit.
    WithinLimit { input: usize, level: usize, max_iters: u64 },
    /// The errors of `errors`, and the error that the limit was exceeded
    /// for every update of `input` of an iteration at or beyond the limit.
    LimitExceeded { input: usize, errors: usize, level: usize, max_iters: u64 },
    /// The rows of `input`, each once.
    Distinct { input: usize },
    /// The updates of `input`, taken out of the iterations at `level`.
    Leave { input: usize, level: usize },
}

/// A node with the token that it is held by: the object for which it was
/// built, if it was built for one. When the token of an object is dropped,
/// the nodes that it held give up the work that they have before them.
#[derive(Debug, Clone, PartialEq, Eq)]
pub struct Node {
    pub operator: Operator,
    pub owner: Option<u64>,
}

/// The two nodes of a collection: its rows and its errors.
#[derive(Debug, Clone, Copy, PartialEq, Eq, Structural)]
pub struct CollectionBundle {
    pub oks: usize,
    pub errs: usize,
}

/// A dataflow under construction: its nodes, the definitions of its
/// feedback variables, and the collections that are bound.
#[derive(Debug)]
pub struct Context {
    pub nodes: Vec<Node>,
    pub definitions: Vec<(usize, usize)>,
    pub bindings: Vec<(Id, CollectionBundle)>,
    pub as_of: Frontier,
    pub until: Frontier,
    /// The token that holds the nodes that are built now.
    pub token: Option<u64>,
}

/// `op` takes its inputs from among the first `limit` nodes.
pub open spec fn inputs_below(op: Operator, limit: int) -> bool {
    match op {
        Operator::Constant { .. } => true,
        Operator::ConstantErrors { .. } => true,
        Operator::Import { .. } => true,
        Operator::ImportErrors { .. } => true,
        Operator::Variable { .. } => true,
        Operator::SuppressEarlyProgress { input, .. } => input < limit,
        Operator::Mfp { input } => input < limit,
        Operator::EvalErrors { input, of } => input < limit && of < limit,
        Operator::FlatMap { input } => input < limit,
        Operator::Reduce { input } => input < limit,
        Operator::TopK { input } => input < limit,
        Operator::Negate { input } => input < limit,
        Operator::Threshold { input } => input < limit,
        Operator::Consolidate { input } => input < limit,
        Operator::ArrangeBy { input } => input < limit,
        Operator::WithinLimit { input, .. } => input < limit,
        Operator::LimitExceeded { input, errors, .. } => input < limit && errors < limit,
        Operator::Distinct { input } => input < limit,
        Operator::Leave { input, .. } => input < limit,
        Operator::Join { inputs, .. } => forall|i: int|
            0 <= i < inputs@.len() ==> #[trigger] inputs@[i] < limit,
        Operator::Concat { inputs } => forall|i: int|
            0 <= i < inputs@.len() ==> #[trigger] inputs@[i] < limit,
    }
}

/// A time moved on to `as_of`: the later of the two.
pub open spec fn advanced(time: u64, as_of: Frontier) -> u64 {
    match as_of.bound {
        Some(bound) => if time >= bound {
            time
        } else {
            bound
        },
        None => time,
    }
}

/// The rows of a constant as they are emitted: each moved on to `as_of`,
/// and those left out whose time `until` has reached.
pub open spec fn constant_rows(rows: Seq<(u64, u64, i64)>, as_of: Frontier, until: Frontier) -> Seq<
    (u64, u64, i64),
>
    decreases rows.len(),
{
    if rows.len() == 0 {
        Seq::<(u64, u64, i64)>::empty()
    } else {
        let r = rows.last();
        let time = advanced(r.1, as_of);
        constant_rows(rows.drop_last(), as_of, until) + if until.admits(time) {
            Seq::<(u64, u64, i64)>::empty()
        } else {
            seq![(r.0, time, r.2)]
        }
    }
}

impl Context {
    /// Every node takes its inputs from nodes before it, every variable
    /// that is defined is defined by a node, and every collection that is
    /// bound has its nodes.
    pub open spec fn wf(&self) -> bool {
        &&& forall|i: int|
            0 <= i < self.nodes@.len() ==> inputs_below((#[trigger] self.nodes@[i]).operator, i)
        &&& forall|i: int|
            0 <= i < self.definitions@.len() ==> (#[trigger] self.definitions@[i]).0
                < self.nodes@.len() && self.definitions@[i].1 < self.nodes@.len()
                && self.nodes@[self.definitions@[i].0 as int].operator is Variable
        &&& forall|i: int|
            0 <= i < self.bindings@.len() ==> self.has_nodes((#[trigger] self.bindings@[i]).1)
    }

    /// Both nodes of `bundle` are nodes of the dataflow.
    pub open spec fn has_nodes(&self, bundle: CollectionBundle) -> bool {
        bundle.oks < self.nodes@.len() && bundle.errs < self.nodes@.len()
    }

    /// This dataflow is `before` grown: the nodes and definitions of
    /// `before` are there as they were.
    pub open spec fn grown_from(&self, before: Context) -> bool {
        &&& before.nodes@.len() <= self.nodes@.len()
        &&& self.nodes@.take(before.nodes@.len() as int) == before.nodes@
        &&& before.definitions@.len() <= self.definitions@.len()
        &&& self.definitions@.take(before.definitions@.len() as int) == before.definitions@
        &&& self.as_of == before.as_of
        &&& self.until == before.until
        &&& self.token == before.token
        &&& forall|i: int|
            before.nodes@.len() <= i < self.nodes@.len() ==> (#[trigger] self.nodes@[i]).owner
                == before.token
    }

    /// A dataflow without nodes, for the times from `as_of` up to `until`.
    pub fn new(as_of: Frontier, until: Frontier) -> (ctx: Context)
        ensures
            ctx.wf(),
            ctx.nodes@.len() == 0,
            ctx.bindings@.len() == 0,
            ctx.definitions@.len() == 0,
            ctx.as_of == as_of,
            ctx.until == until,
            ctx.token is None,
    {
        Context {
            nodes: Vec::new(),
            definitions: Vec::new(),
            bindings: Vec::new(),
            as_of,
            until,
            token: None,
        }
    }

    /// Adds the node `op` and gives its place.
    pub fn add(&mut self, op: Operator) -> (place: usize)
        requires
            old(self).wf(),
            inputs_below(op, old(self).nodes@.len() as int),
        ensures
            final(self).wf(),
            final(self).grown_from(*old(self)),
            place == old(self).nodes@.len(),
            final(self).nodes@ == old(self).nodes@.push(
                (Node { operator: op, owner: old(self).token }),
            ),
            final(self).definitions == old(self).definitions,
            final(self).bindings == old(self).bindings,
    {
        let place = self.nodes.len();
        let ghost before = self.nodes@;
        self.nodes.push(Node { operator: op, owner: self.token });
        proof {
            assert(self.nodes@.take(before.len() as int) =~= before);
            assert(self.definitions@.take(self.definitions@.len() as int) =~= self.definitions@);
            assert forall|i: int| 0 <= i < self.nodes@.len() implies inputs_below(
                (#[trigger] self.nodes@[i]).operator,
                i,
            ) by {
                if i < before.len() {
                    assert(self.nodes@[i] == before[i]);
                }
            }
            assert forall|i: int| 0 <= i < self.definitions@.len() implies (
            #[trigger] self.definitions@[i]).0 < self.nodes@.len() && self.definitions@[i].1
                < self.nodes@.len() && self.nodes@[self.definitions@[i].0 as int].operator is Variable by {
                assert(self.nodes@[self.definitions@[i].0 as int]
                    == before[self.definitions@[i].0 as int]);
            }
        }
        place
    }

    /// The collection that is bound to `id`: the one that was bound last,
    /// if there is one.
    pub open spec fn bound(bindings: Seq<(Id, CollectionBundle)>, id: Id) -> Option<
        CollectionBundle,
    >
        decreases bindings.len(),
    {
        if bindings.len() == 0 {
            None
        } else if bindings.last().0 == id {
            Some(bindings.last().1)
        } else {
            Context::bound(bindings.drop_last(), id)
        }
    }

    /// The collection that is bound to `id`.
    pub fn lookup_id(&self, id: Id) -> (bundle: Option<CollectionBundle>)
        requires
            self.wf(),
        ensures
            bundle == Context::bound(self.bindings@, id),
            bundle matches Some(b) ==> self.has_nodes(b),
    {
        let mut i: usize = self.bindings.len();
        proof {
            assert(self.bindings@.take(i as int) =~= self.bindings@);
        }
        while i > 0
            invariant
                i <= self.bindings@.len(),
                self.wf(),
                Context::bound(self.bindings@, id) == Context::bound(
                    self.bindings@.take(i as int),
                    id,
                ),
            decreases i,
        {
            i = i - 1;
            proof {
                assert(self.bindings@.take(i + 1).drop_last() =~= self.bindings@.take(i as int));
                assert(self.bindings@.take(i + 1).last() == self.bindings@[i as int]);
            }
            if self.bindings[i].0 == id {
                return Some(self.bindings[i].1);
            }
        }
        None
    }

    /// Binds `bundle` to `id`, over what was bound to it.
    pub fn insert_id(&mut self, id: Id, bundle: CollectionBundle)
        requires
            old(self).wf(),
            old(self).has_nodes(bundle),
        ensures
            final(self).wf(),
            final(self).nodes == old(self).nodes,
            final(self).definitions == old(self).definitions,
            final(self).as_of == old(self).as_of,
            final(self).until == old(self).until,
            final(self).token == old(self).token,
            final(self).bindings@ == old(self).bindings@.push((id, bundle)),
    {
        self.bindings.push((id, bundle));
    }

    /// Takes the last binding away.
    pub fn remove_last(&mut self) -> (binding: Option<(Id, CollectionBundle)>)
        requires
            old(self).wf(),
        ensures
            final(self).wf(),
            final(self).nodes == old(self).nodes,
            final(self).definitions == old(self).definitions,
            final(self).as_of == old(self).as_of,
            final(self).until == old(self).until,
            final(self).token == old(self).token,
            match binding {
                Some(b) => old(self).bindings@.len() > 0 && b == old(self).bindings@.last()
                    && final(self).bindings@ == old(self).bindings@.drop_last(),
                None => old(self).bindings@.len() == 0 && final(self).bindings@ == old(self).bindings@,
            },
    {
        let ghost before = self.bindings@;
        let r = self.bindings.pop();
        proof {
            if before.len() > 0 {
                assert(self.bindings@ =~= before.drop_last());
            }
            assert forall|i: int| 0 <= i < self.bindings@.len() implies self.has_nodes(
                (#[trigger] self.bindings@[i]).1,
            ) by {
                assert(self.bindings@[i] == before[i]);
            }
        }
        r
    }

    /// Defines the variable at `variable` by the node at `definition`.
    pub fn set_recursive(&mut self, variable: usize, definition: usize)
        requires
            old(self).wf(),
            variable < old(self).nodes@.len(),
            definition < old(self).nodes@.len(),
            old(self).nodes@[variable as int].operator is Variable,
        ensures
            final(self).wf(),
            final(self).grown_from(*old(self)),
            final(self).nodes == old(self).nodes,
            final(self).bindings == old(self).bindings,
            final(self).definitions@ == old(self).definitions@.push((variable, definition)),
    {
        let ghost before = self.definitions@;
        self.definitions.push((variable, definition));
        proof {
            assert(self.definitions@.take(before.len() as int) =~= before);
            assert(self.nodes@.take(self.nodes@.len() as int) =~= self.nodes@);
            assert forall|i: int| 0 <= i < self.definitions@.len() implies (
            #[trigger] self.definitions@[i]).0 < self.nodes@.len() && self.definitions@[i].1
                < self.nodes@.len() && self.nodes@[self.definitions@[i].0 as int].operator is Variable by {
                if i < before.len() {
                    assert(self.definitions@[i] == before[i]);
                }
            }
        }
    }

    /// Growing goes on: what has grown from a dataflow that has grown from
    /// another has grown from that one.
    pub proof fn lemma_grown_transitive(&self, mid: Context, before: Context)
        requires
            self.grown_from(mid),
            mid.grown_from(before),
        ensures
            self.grown_from(before),
    {
        assert(self.nodes@.take(before.nodes@.len() as int) =~= before.nodes@) by {
            assert forall|i: int| 0 <= i < before.nodes@.len() implies self.nodes@[i]
                == before.nodes@[i] by {
                assert(self.nodes@[i] == self.nodes@.take(mid.nodes@.len() as int)[i]);
                assert(mid.nodes@[i] == mid.nodes@.take(before.nodes@.len() as int)[i]);
            }
        }
        assert forall|i: int| before.nodes@.len() <= i < self.nodes@.len() implies (
        #[trigger] self.nodes@[i]).owner == before.token by {
            if i < mid.nodes@.len() {
                assert(self.nodes@[i] == self.nodes@.take(mid.nodes@.len() as int)[i]);
                assert(mid.nodes@[i].owner == before.token);
            }
        }
        assert(self.definitions@.take(before.definitions@.len() as int) =~= before.definitions@)
            by {
            assert forall|i: int| 0 <= i < before.definitions@.len() implies self.definitions@[i]
                == before.definitions@[i] by {
                assert(self.definitions@[i] == self.definitions@.take(
                    mid.definitions@.len() as int,
                )[i]);
                assert(mid.definitions@[i] == mid.definitions@.take(
                    before.definitions@.len() as int,
                )[i]);
            }
        }
    }

    /// Renders the rows of a constant: every time is moved on to `as_of`,
    /// and the rows are left out whose time `until` has reached. An error in
    /// place of the rows is emitted at the least time moved on to `as_of`.
    pub fn render_constant(&mut self, rows: &Vec<(u64, u64, i64)>, error: Option<u64>) -> (bundle:
        CollectionBundle)
        requires
            old(self).wf(),
        ensures
            final(self).wf(),
            final(self).grown_from(*old(self)),
            final(self).definitions@ == old(self).definitions@,
            final(self).bindings == old(self).bindings,
            final(self).has_nodes(bundle),
            final(self).nodes@.len() == old(self).nodes@.len() + 2,
            final(self).nodes@[bundle.oks as int].operator matches Operator::Constant {
                rows: emitted,
            }
                && emitted@ == if error is Some {
                Seq::<(u64, u64, i64)>::empty()
            } else {
                constant_rows(rows@, old(self).as_of, old(self).until)
            },
            final(self).nodes@[bundle.errs as int].operator == (Operator::ConstantErrors {
                error,
                time: advanced(0, old(self).as_of),
            }),
    {
        let mut emitted: Vec<(u64, u64, i64)> = Vec::new();
        if error.is_none() {
            let mut i: usize = 0;
            proof {
                assert(rows@.take(0) =~= Seq::<(u64, u64, i64)>::empty());
            }
            while i < rows.len()
                invariant
                    i <= rows.len(),
                    emitted@ == constant_rows(rows@.take(i as int), self.as_of, self.until),
                decreases rows.len() - i,
            {
                let row = rows[i];
                let time = advance_by(row.1, &self.as_of);
                proof {
                    assert(rows@.take(i + 1).drop_last() =~= rows@.take(i as int));
                    assert(rows@.take(i + 1).last() == row);
                }
                if !self.until.less_equal_time(time) {
                    emitted.push((row.0, time, row.2));
                } else {
                    assert(emitted@ + Seq::<(u64, u64, i64)>::empty() =~= emitted@);
                }
                i = i + 1;
            }
            proof {
                assert(rows@.take(rows@.len() as int) =~= rows@);
            }
        }
        let error_time = advance_by(0, &self.as_of);
        let ghost start = *self;
        let oks = self.add(Operator::Constant { rows: emitted });
        let ghost mid = *self;
        let errs = self.add(Operator::ConstantErrors { error, time: error_time });
        proof {
            self.lemma_grown_transitive(mid, start);
        }
        CollectionBundle { oks, errs }
    }

    /// Renders an operation that cannot fail on `input`: its node takes
    /// the rows of `input`, and the errors of `input` are handed on as they
    /// are.
    pub fn render_infallible(&mut self, op: Operator, input: CollectionBundle) -> (bundle:
        CollectionBundle)
        requires
            old(self).wf(),
            old(self).has_nodes(input),
            inputs_below(op, old(self).nodes@.len() as int),
        ensures
            final(self).wf(),
            final(self).grown_from(*old(self)),
            final(self).definitions@ == old(self).definitions@,
            final(self).bindings == old(self).bindings,
            final(self).has_nodes(bundle),
            final(self).nodes@ == old(self).nodes@.push(
                (Node { operator: op, owner: old(self).token }),
            ),
            bundle.oks == old(self).nodes@.len(),
            bundle.errs == input.errs,
    {
        let oks = self.add(op);
        CollectionBundle { oks, errs: input.errs }
    }

    /// Renders an operation that can fail on `input`: its node takes the
    /// rows of `input`, and its errors join the errors of `input`.
    pub fn render_fallible(&mut self, op: Operator, input: CollectionBundle) -> (bundle:
        CollectionBundle)
        requires
            old(self).wf(),
            old(self).has_nodes(input),
            inputs_below(op, old(self).nodes@.len() as int),
        ensures
            final(self).wf(),
            final(self).grown_from(*old(self)),
            final(self).definitions@ == old(self).definitions@,
            final(self).bindings == old(self).bindings,
            final(self).has_nodes(bundle),
            final(self).nodes@ == old(self).nodes@.push(
                (Node { operator: op, owner: old(self).token }),
            ).push(
                (Node {
                    operator: Operator::EvalErrors { input: input.errs, of: bundle.oks },
                    owner: old(self).token,
                }),
            ),
            bundle.oks == old(self).nodes@.len(),
            bundle.errs == old(self).nodes@.len() + 1,
    {
        let ghost start = *self;
        let oks = self.add(op);
        let ghost mid = *self;
        let errs = self.add(Operator::EvalErrors { input: input.errs, of: oks });
        proof {
            self.lemma_grown_transitive(mid, start);
        }
        CollectionBundle { oks, errs }
    }

    /// Renders the union of `inputs`: the rows of all of them together,
    /// consolidated where that is asked for, and the errors of all of them
    /// together.
    pub fn render_union(&mut self, inputs: &Vec<CollectionBundle>, consolidate_output: bool) -> (bundle:
        CollectionBundle)
        requires
            old(self).wf(),
            forall|i: int| 0 <= i < inputs@.len() ==> old(self).has_nodes(#[trigger] inputs@[i]),
        ensures
            final(self).wf(),
            final(self).grown_from(*old(self)),
            final(self).definitions@ == old(self).definitions@,
            final(self).bindings == old(self).bindings,
            final(self).has_nodes(bundle),
            final(self).nodes@[old(self).nodes@.len() as int].operator matches Operator::Concat {
                inputs: oks,
            } && oks@ == oks_of(inputs@),
            final(self).nodes@[bundle.errs as int].operator matches Operator::Concat {
                inputs: errs,
            }
                && errs@ == errs_of(inputs@),
            bundle.oks == old(self).nodes@.len() + if consolidate_output {
                1int
            } else {
                0int
            },
            consolidate_output ==> final(self).nodes@[bundle.oks as int].operator == (
            Operator::Consolidate { input: old(self).nodes@.len() as usize }),
    {
        let (oks, errs) = split_bundles(inputs);
        proof {
            assert forall|k: int| 0 <= k < oks@.len() implies #[trigger] oks@[k]
                < self.nodes@.len() by {
                assert(self.has_nodes(inputs@[k]));
            }
            assert forall|k: int| 0 <= k < errs@.len() implies #[trigger] errs@[k]
                < self.nodes@.len() by {
                assert(self.has_nodes(inputs@[k]));
            }
        }
        let ghost start = *self;
        let concat = self.add(Operator::Concat { inputs: oks });
        let ghost first = *self;
        let oks_node = if consolidate_output {
            let node = self.add(Operator::Consolidate { input: concat });
            proof {
                self.lemma_grown_transitive(first, start);
            }
            node
        } else {
            concat
        };
        let ghost second = *self;
        let errs_node = self.add(Operator::Concat { inputs: errs });
        proof {
            self.lemma_grown_transitive(second, start);
        }
        CollectionBundle { oks: oks_node, errs: errs_node }
    }
}

/// The names that are bound in `bindings`.
pub open spec fn scope_of(bindings: Seq<(Id, CollectionBundle)>) -> Set<Id> {
    Set::new(|id: Id| Context::bound(bindings, id) is Some)
}

/// The names of `scope` together with the local names `ids`.
pub open spec fn scope_with(scope: Set<Id>, ids: Seq<u64>) -> Set<Id> {
    Set::new(|id: Id| scope.contains(id) || (id matches Id::Local(x) && ids.contains(x)))
}

/// Why `plan` cannot be rendered where the names of `scope` are bound: the
/// first fault that is met when the plan is gone through from the inputs
/// to the operations on them. `None` where it can be rendered.
pub open spec fn plan_error(plan: Plan, scope: Set<Id>) -> Option<RenderError>
    decreases plan, 0nat,
{
    match plan {
        Plan::Constant { .. } => None,
        Plan::Get { id, .. } => if scope.contains(id) {
            None
        } else {
            Some(RenderError::GetNotFound(id))
        },
        Plan::Let { id, value, body } => match plan_error(*value, scope) {
            Some(e) => Some(e),
            None => if scope.contains(Id::Local(id)) {
                Some(RenderError::Shadowed(Id::Local(id)))
            } else {
                plan_error(*body, scope.insert(Id::Local(id)))
            },
        },
        Plan::LetRec { .. } => Some(RenderError::UnexpectedLetRec),
        Plan::Mfp { input, .. } => plan_error(*input, scope),
        Plan::FlatMap { input } => plan_error(*input, scope),
        Plan::Reduce { input } => plan_error(*input, scope),
        Plan::TopK { input } => plan_error(*input, scope),
        Plan::Negate { input } => plan_error(*input, scope),
        Plan::Threshold { input } => plan_error(*input, scope),
        Plan::ArrangeBy { input } => plan_error(*input, scope),
        Plan::Join { inputs, .. } => plans_error(inputs, scope, 0),
        Plan::Union { inputs, .. } => plans_error(inputs, scope, 0),
    }
}

/// The first fault among the plans of `plans` from the place `from` on.
pub open spec fn plans_error(plans: Vec<Plan>, scope: Set<Id>, from: nat) -> Option<RenderError>
    decreases plans, plans@.len() - from,
{
    if from >= plans@.len() {
        None
    } else {
        match plan_error(plans@[from as int], scope) {
            Some(e) => Some(e),
            None => plans_error(plans, scope, from + 1),
        }
    }
}

/// The node at `oks` is the operation `op`, and the node at `errs` holds
/// the errors of its evaluation with the errors `input_errs` of its input.
pub open spec fn fallible_top(nodes: Seq<Node>, b: CollectionBundle, op: Operator, input_errs: usize) -> bool {
    nodes[b.oks as int].operator == op && nodes[b.errs as int].operator == (Operator::EvalErrors {
        input: input_errs,
        of: b.oks,
    })
}

/// The rows and the errors of `bundles`, as nodes.
pub open spec fn oks_of(bundles: Seq<CollectionBundle>) -> Seq<usize> {
    bundles.map_values(|b: CollectionBundle| b.oks)
}

/// The errors of `bundles`, as nodes.
pub open spec fn errs_of(bundles: Seq<CollectionBundle>) -> Seq<usize> {
    bundles.map_values(|b: CollectionBundle| b.errs)
}

/// Holds of every collection; it marks the collection that a plan is
/// rendered to.
pub open spec fn any_bundle(b: CollectionBundle) -> bool {
    true
}

/// Holds of all collections; it marks the collections that plans are
/// rendered to.
pub open spec fn any_bundles(bs: Seq<CollectionBundle>) -> bool {
    true
}

/// The nodes `nodes` hold `plan` rendered to the collection `b`, where
/// `bindings` are bound, for the times from `as_of` up to `until`: the top
/// operation of the plan is a node that takes the rows of what its inputs
/// are rendered to; an operation that can fail has a node for its errors,
/// which takes the errors of its input; and one that cannot has the errors
/// of its input for its own.
pub open spec fn lowered(
    plan: Plan,
    nodes: Seq<Node>,
    bindings: Seq<(Id, CollectionBundle)>,
    as_of: Frontier,
    until: Frontier,
    b: CollectionBundle,
) -> bool
    decreases plan, 0nat,
{
    &&& b.oks < nodes.len()
    &&& b.errs < nodes.len()
    &&& match plan {
        Plan::Constant { rows, error } => (nodes[b.oks as int].operator matches Operator::Constant {
            rows: emitted,
        } && emitted@ == if error is Some {
            Seq::<(u64, u64, i64)>::empty()
        } else {
            constant_rows(rows@, as_of, until)
        }) && nodes[b.errs as int].operator == (Operator::ConstantErrors {
            error,
            time: advanced(0, as_of),
        }),
        Plan::Get { id, identity } => Context::bound(bindings, id) matches Some(src) && if identity {
            b == src
        } else {
            fallible_top(nodes, b, Operator::Mfp { input: src.oks }, src.errs)
        },
        Plan::Let { id, value, body } => exists|v: CollectionBundle| #[trigger] any_bundle(v) && lowered(*value, nodes, bindings, as_of, until, v) && lowered(
                *body,
                nodes,
                bindings.push((Id::Local(id), v)),
                as_of,
                until,
                b,
            ),
        Plan::LetRec { .. } => false,
        Plan::Mfp { input, identity } => exists|i: CollectionBundle| #[trigger] any_bundle(i) && lowered(*input, nodes, bindings, as_of, until, i) && if identity {
                b == i
            } else {
                fallible_top(nodes, b, Operator::Mfp { input: i.oks }, i.errs)
            },
        Plan::FlatMap { input } => exists|i: CollectionBundle| #[trigger] any_bundle(i) && lowered(*input, nodes, bindings, as_of, until, i) && fallible_top(
                nodes,
                b,
                Operator::FlatMap { input: i.oks },
                i.errs,
            ),
        Plan::Reduce { input } => exists|i: CollectionBundle| #[trigger] any_bundle(i) && lowered(*input, nodes, bindings, as_of, until, i) && fallible_top(
                nodes,
                b,
                Operator::Reduce { input: i.oks },
                i.errs,
            ),
        Plan::TopK { input } => exists|i: CollectionBundle| #[trigger] any_bundle(i) && lowered(*input, nodes, bindings, as_of, until, i) && fallible_top(
                nodes,
                b,
                Operator::TopK { input: i.oks },
                i.errs,
            ),
        Plan::ArrangeBy { input } => exists|i: CollectionBundle| #[trigger] any_bundle(i) && lowered(*input, nodes, bindings, as_of, until, i) && fallible_top(
                nodes,
                b,
                Operator::ArrangeBy { input: i.oks },
                i.errs,
            ),
        Plan::Negate { input } => exists|i: CollectionBundle| #[trigger] any_bundle(i) && lowered(*input, nodes, bindings, as_of, until, i) && nodes[b.oks as int].operator == (
            Operator::Negate { input: i.oks }) && b.errs == i.errs,
        Plan::Threshold { input } => exists|i: CollectionBundle| #[trigger] any_bundle(i) && lowered(*input, nodes, bindings, as_of, until, i) && nodes[b.oks as int].operator == (
            Operator::Threshold { input: i.oks }) && b.errs == i.errs,
        Plan::Join { inputs, plan: how } => exists|bs: Seq<CollectionBundle>| #[trigger] any_bundles(bs) && lowered_all(inputs, nodes, bindings, as_of, until, bs) && (
            nodes[b.oks as int].operator matches Operator::Join { inputs: oks, plan: p } && p == how
                && oks@ == oks_of(bs)) && (nodes[b.errs as int].operator matches Operator::EvalErrors {
                input: all,
                of,
            } && of == b.oks && all < nodes.len() && (
            nodes[all as int].operator matches Operator::Concat { inputs: errs } && errs@ == errs_of(
                bs,
            ))),
        Plan::Union { inputs, consolidate_output } => exists|bs: Seq<CollectionBundle>| #[trigger] any_bundles(bs) && lowered_all(inputs, nodes, bindings, as_of, until, bs) && (
            nodes[b.errs as int].operator matches Operator::Concat { inputs: errs } && errs@
                == errs_of(bs)) && if consolidate_output {
                nodes[b.oks as int].operator matches Operator::Consolidate { input: all } && all
                    < nodes.len() && (nodes[all as int].operator matches Operator::Concat {
                    inputs: oks,
                } && oks@ == oks_of(bs))
            } else {
                nodes[b.oks as int].operator matches Operator::Concat { inputs: oks } && oks@
                    == oks_of(bs)
            },
    }
}

/// The nodes `nodes` hold every plan of `plans` rendered to the collection
/// of `bundles` at its place.
pub open spec fn lowered_all(
    plans: Vec<Plan>,
    nodes: Seq<Node>,
    bindings: Seq<(Id, CollectionBundle)>,
    as_of: Frontier,
    until: Frontier,
    bundles: Seq<CollectionBundle>,
) -> bool
    decreases plans, 1nat,
{
    bundles.len() == plans@.len() && forall|k: int|
        0 <= k < plans@.len() ==> lowered(plans@[k], nodes, bindings, as_of, until, #[trigger] bundles[k])
}

/// A plan that is rendered stays rendered as the dataflow grows.
pub proof fn lemma_lowered_grown(
    plan: Plan,
    nodes: Seq<Node>,
    more: Seq<Node>,
    bindings: Seq<(Id, CollectionBundle)>,
    as_of: Frontier,
    until: Frontier,
    b: CollectionBundle,
)
    requires
        lowered(plan, nodes, bindings, as_of, until, b),
        nodes.len() <= more.len(),
        more.take(nodes.len() as int) == nodes,
    ensures
        lowered(plan, more, bindings, as_of, until, b),
    decreases plan, 0nat,
{
    assert forall|k: int| 0 <= k < nodes.len() implies #[trigger] more[k] == nodes[k] by {
        assert(more.take(nodes.len() as int)[k] == more[k]);
    }
    match plan {
        Plan::Let { id, value, body } => {
            let v = choose|v: CollectionBundle| #[trigger] any_bundle(v) && lowered(*value, nodes, bindings, as_of, until, v) && lowered(
                    *body,
                    nodes,
                    bindings.push((Id::Local(id), v)),
                    as_of,
                    until,
                    b,
                );
            lemma_lowered_grown(*value, nodes, more, bindings, as_of, until, v);
            lemma_lowered_grown(
                *body,
                nodes,
                more,
                bindings.push((Id::Local(id), v)),
                as_of,
                until,
                b,
            );
        },
        Plan::Mfp { input, identity } => {
            let i = choose|i: CollectionBundle| #[trigger] any_bundle(i) && lowered(*input, nodes, bindings, as_of, until, i) && if identity {
                    b == i
                } else {
                    fallible_top(nodes, b, Operator::Mfp { input: i.oks }, i.errs)
                };
            lemma_lowered_grown(*input, nodes, more, bindings, as_of, until, i);
        },
        Plan::FlatMap { input } => {
            let i = choose|i: CollectionBundle| #[trigger] any_bundle(i) && lowered(*input, nodes, bindings, as_of, until, i) && fallible_top(
                    nodes,
                    b,
                    Operator::FlatMap { input: i.oks },
                    i.errs,
                );
            lemma_lowered_grown(*input, nodes, more, bindings, as_of, until, i);
        },
        Plan::Reduce { input } => {
            let i = choose|i: CollectionBundle| #[trigger] any_bundle(i) && lowered(*input, nodes, bindings, as_of, until, i) && fallible_top(
                    nodes,
                    b,
                    Operator::Reduce { input: i.oks },
                    i.errs,
                );
            lemma_lowered_grown(*input, nodes, more, bindings, as_of, until, i);
        },
        Plan::TopK { input } => {
            let i = choose|i: CollectionBundle| #[trigger] any_bundle(i) && lowered(*input, nodes, bindings, as_of, until, i) && fallible_top(
                    nodes,
                    b,
                    Operator::TopK { input: i.oks },
                    i.errs,
                );
            lemma_lowered_grown(*input, nodes, more, bindings, as_of, until, i);
        },
        Plan::ArrangeBy { input } => {
            let i = choose|i: CollectionBundle| #[trigger] any_bundle(i) && lowered(*input, nodes, bindings, as_of, until, i) && fallible_top(
                    nodes,
                    b,
                    Operator::ArrangeBy { input: i.oks },
                    i.errs,
                );
            lemma_lowered_grown(*input, nodes, more, bindings, as_of, until, i);
        },
        Plan::Negate { input } => {
            let i = choose|i: CollectionBundle| #[trigger] any_bundle(i) && lowered(*input, nodes, bindings, as_of, until, i) && nodes[b.oks as int].operator
                    == (Operator::Negate { input: i.oks }) && b.errs == i.errs;
            lemma_lowered_grown(*input, nodes, more, bindings, as_of, until, i);
        },
        Plan::Threshold { input } => {
            let i = choose|i: CollectionBundle| #[trigger] any_bundle(i) && lowered(*input, nodes, bindings, as_of, until, i) && nodes[b.oks as int].operator
                    == (Operator::Threshold { input: i.oks }) && b.errs == i.errs;
            lemma_lowered_grown(*input, nodes, more, bindings, as_of, until, i);
        },
        Plan::Join { inputs, plan: how } => {
            let bs = choose|bs: Seq<CollectionBundle>| #[trigger] any_bundles(bs) && lowered_all(inputs, nodes, bindings, as_of, until, bs) && (
                nodes[b.oks as int].operator matches Operator::Join { inputs: oks, plan: p } && p
                    == how && oks@ == oks_of(bs)) && (
                nodes[b.errs as int].operator matches Operator::EvalErrors { input: all, of } && of
                    == b.oks && all < nodes.len() && (
                nodes[all as int].operator matches Operator::Concat { inputs: errs } && errs@
                    == errs_of(bs)));
            lemma_lowered_all_grown(inputs, nodes, more, bindings, as_of, until, bs);
        },
        Plan::Union { inputs, consolidate_output } => {
            let bs = choose|bs: Seq<CollectionBundle>| #[trigger] any_bundles(bs) && lowered_all(inputs, nodes, bindings, as_of, until, bs) && (
                nodes[b.errs as int].operator matches Operator::Concat { inputs: errs } && errs@
                    == errs_of(bs)) && if consolidate_output {
                    nodes[b.oks as int].operator matches Operator::Consolidate { input: all } && all
                        < nodes.len() && (nodes[all as int].operator matches Operator::Concat {
                        inputs: oks,
                    } && oks@ == oks_of(bs))
                } else {
                    nodes[b.oks as int].operator matches Operator::Concat { inputs: oks } && oks@
                        == oks_of(bs)
                };
            lemma_lowered_all_grown(inputs, nodes, more, bindings, as_of, until, bs);
        },
        _ => {},
    }
}

/// Plans that are rendered stay rendered as the dataflow grows.
pub proof fn lemma_lowered_all_grown(
    plans: Vec<Plan>,
    nodes: Seq<Node>,
    more: Seq<Node>,
    bindings: Seq<(Id, CollectionBundle)>,
    as_of: Frontier,
    until: Frontier,
    bundles: Seq<CollectionBundle>,
)
    requires
        lowered_all(plans, nodes, bindings, as_of, until, bundles),
        nodes.len() <= more.len(),
        more.take(nodes.len() as int) == nodes,
    ensures
        lowered_all(plans, more, bindings, as_of, until, bundles),
    decreases plans, 1nat,
{
    assert forall|k: int| 0 <= k < plans@.len() implies lowered(
        plans@[k],
        more,
        bindings,
        as_of,
        until,
        #[trigger] bundles[k],
    ) by {
        lemma_lowered_grown(plans@[k], nodes, more, bindings, as_of, until, bundles[k]);
    }
}

/// Binding a name adds it to the names that are bound.
pub proof fn lemma_scope_push(bindings: Seq<(Id, CollectionBundle)>, id: Id, b: CollectionBundle)
    ensures
        scope_of(bindings.push((id, b))) == scope_of(bindings).insert(id),
        Context::bound(bindings.push((id, b)), id) == Some(b),
{
    let pushed = bindings.push((id, b));
    assert(pushed.drop_last() =~= bindings);
    assert(pushed.last() == (id, b));
    assert forall|x: Id| scope_of(pushed).contains(x) <==> scope_of(bindings).insert(id).contains(
        x,
    ) by {
        if x != id {
            assert(Context::bound(pushed, x) == Context::bound(bindings, x));
        }
    }
    assert(scope_of(pushed) =~= scope_of(bindings).insert(id));
}

/// The nodes of the rows of `inputs`, and the nodes of their errors.
pub fn split_bundles(inputs: &Vec<CollectionBundle>) -> (r: (Vec<usize>, Vec<usize>))
    ensures
        r.0@ == oks_of(inputs@),
        r.1@ == errs_of(inputs@),
{
    let mut oks: Vec<usize> = Vec::new();
    let mut errs: Vec<usize> = Vec::new();
    let mut i: usize = 0;
    while i < inputs.len()
        invariant
            i <= inputs.len(),
            oks@ == oks_of(inputs@.take(i as int)),
            errs@ == errs_of(inputs@.take(i as int)),
        decreases inputs.len() - i,
    {
        oks.push(inputs[i].oks);
        errs.push(inputs[i].errs);
        proof {
            assert(inputs@.take(i + 1) =~= inputs@.take(i as int).push(inputs@[i as int]));
            assert(oks@ =~= oks_of(inputs@.take(i + 1)));
            assert(errs@ =~= errs_of(inputs@.take(i + 1)));
        }
        i = i + 1;
    }
    proof {
        assert(inputs@.take(inputs@.len() as int) =~= inputs@);
    }
    (oks, errs)
}

impl Context {
    /// Renders the join of `inputs`: its node takes the rows of all of
    /// them, and its errors join the errors of all of them.
    pub fn render_join(&mut self, inputs: &Vec<CollectionBundle>, plan: JoinPlan) -> (bundle:
        CollectionBundle)
        requires
            old(self).wf(),
            forall|i: int| 0 <= i < inputs@.len() ==> old(self).has_nodes(#[trigger] inputs@[i]),
        ensures
            final(self).wf(),
            final(self).grown_from(*old(self)),
            final(self).bindings == old(self).bindings,
            final(self).definitions@ == old(self).definitions@,
            final(self).has_nodes(bundle),
            final(self).nodes@.len() == old(self).nodes@.len() + 3,
            bundle.oks == old(self).nodes@.len(),
            bundle.errs == old(self).nodes@.len() + 2,
            final(self).nodes@[bundle.oks as int].operator matches Operator::Join {
                inputs: oks,
                plan: p,
            } && p == plan && oks@ == oks_of(inputs@),
            final(self).nodes@[bundle.oks + 1].operator matches Operator::Concat { inputs: errs }
                && errs@ == errs_of(inputs@),
            final(self).nodes@[bundle.errs as int].operator == (Operator::EvalErrors {
                input: (bundle.oks + 1) as usize,
                of: bundle.oks,
            }),
    {
        let (oks, errs) = split_bundles(inputs);
        proof {
            assert forall|k: int| 0 <= k < oks@.len() implies #[trigger] oks@[k]
                < self.nodes@.len() by {
                assert(self.has_nodes(inputs@[k]));
            }
            assert forall|k: int| 0 <= k < errs@.len() implies #[trigger] errs@[k]
                < self.nodes@.len() by {
                assert(self.has_nodes(inputs@[k]));
            }
        }
        let ghost start = *self;
        let join = self.add(Operator::Join { inputs: oks, plan });
        let ghost first = *self;
        let concat = self.add(Operator::Concat { inputs: errs });
        proof {
            self.lemma_grown_transitive(first, start);
        }
        let ghost second = *self;
        let failed = self.add(Operator::EvalErrors { input: concat, of: join });
        proof {
            self.lemma_grown_transitive(second, start);
        }
        CollectionBundle { oks: join, errs: failed }
    }

    /// Forgets the bindings from the place `len` on.
    pub fn truncate_bindings(&mut self, len: usize)
        requires
            old(self).wf(),
            len <= old(self).bindings@.len(),
        ensures
            final(self).wf(),
            final(self).nodes == old(self).nodes,
            final(self).definitions == old(self).definitions,
            final(self).as_of == old(self).as_of,
            final(self).until == old(self).until,
            final(self).token == old(self).token,
            final(self).bindings@ == old(self).bindings@.take(len as int),
    {
        let ghost before = self.bindings@;
        self.bindings.truncate(len);
        proof {
            assert(self.bindings@ =~= before.take(len as int));
            assert forall|i: int| 0 <= i < self.bindings@.len() implies self.has_nodes(
                (#[trigger] self.bindings@[i]).1,
            ) by {
                assert(self.bindings@[i] == before[i]);
            }
        }
    }

    /// Lets the nodes that are built from now on be held by `token`.
    pub fn set_shutdown_token(&mut self, token: Option<u64>)
        requires
            old(self).wf(),
        ensures
            final(self).wf(),
            final(self).nodes == old(self).nodes,
            final(self).definitions == old(self).definitions,
            final(self).bindings == old(self).bindings,
            final(self).as_of == old(self).as_of,
            final(self).until == old(self).until,
            final(self).token == token,
    {
        self.token = token;
    }
}

/// Renders all of `plans`, and gives their collections in the order of the
/// plans.
pub fn render_plans(ctx: &mut Context, plans: &Vec<Plan>) -> (r: Result<
    Vec<CollectionBundle>,
    RenderError,
>)
    requires
        old(ctx).wf(),
    ensures
        final(ctx).wf(),
        final(ctx).grown_from(*old(ctx)),
        final(ctx).bindings@ == old(ctx).bindings@,
        final(ctx).definitions@ == old(ctx).definitions@,
        match r {
            Ok(bundles) => plans_error(*plans, scope_of(old(ctx).bindings@), 0) is None
                && bundles@.len() == plans@.len() && (forall|i: int|
                0 <= i < bundles@.len() ==> final(ctx).has_nodes(#[trigger] bundles@[i]))
                && lowered_all(
                *plans,
                final(ctx).nodes@,
                old(ctx).bindings@,
                old(ctx).as_of,
                old(ctx).until,
                bundles@,
            ),
            Err(e) => plans_error(*plans, scope_of(old(ctx).bindings@), 0) == Some(e),
        },
    decreases plans, 1nat,
{
    let ghost start = *ctx;
    let ghost scope = scope_of(ctx.bindings@);
    let mut bundles: Vec<CollectionBundle> = Vec::new();
    let mut i: usize = 0;
    proof {
        assert(ctx.nodes@.take(ctx.nodes@.len() as int) =~= ctx.nodes@);
        assert(ctx.definitions@.take(ctx.definitions@.len() as int) =~= ctx.definitions@);
    }
    while i < plans.len()
        invariant
            i <= plans.len(),
            ctx.wf(),
            start == *old(ctx),
            ctx.grown_from(start),
            ctx.bindings@ == start.bindings@,
            ctx.definitions@ == start.definitions@,
            scope == scope_of(start.bindings@),
            bundles@.len() == i,
            forall|k: int| 0 <= k < bundles@.len() ==> ctx.has_nodes(#[trigger] bundles@[k]),
            forall|k: int|
                0 <= k < i ==> lowered(
                    plans@[k],
                    ctx.nodes@,
                    start.bindings@,
                    start.as_of,
                    start.until,
                    #[trigger] bundles@[k],
                ),
            plans_error(*plans, scope, 0) == plans_error(*plans, scope, i as nat),
        decreases plans.len() - i,
    {
        let ghost mid = *ctx;
        let ghost held = bundles@;
        let r = render_plan(ctx, &plans[i]);
        proof {
            ctx.lemma_grown_transitive(mid, start);
        }
        match r {
            Err(e) => {
                return Err(e);
            },
            Ok(b) => {
                bundles.push(b);
                proof {
                    assert forall|k: int| 0 <= k < bundles@.len() implies ctx.has_nodes(
                        #[trigger] bundles@[k],
                    ) by {
                        if k < held.len() {
                            assert(bundles@[k] == held[k]);
                            assert(mid.has_nodes(held[k]));
                        }
                    }
                    assert forall|k: int| 0 <= k < i + 1 implies lowered(
                        plans@[k],
                        ctx.nodes@,
                        start.bindings@,
                        start.as_of,
                        start.until,
                        #[trigger] bundles@[k],
                    ) by {
                        if k < held.len() {
                            assert(bundles@[k] == held[k]);
                            lemma_lowered_grown(
                                plans@[k],
                                mid.nodes@,
                                ctx.nodes@,
                                start.bindings@,
                                start.as_of,
                                start.until,
                                held[k],
                            );
                        }
                    }
                }
            },
        }
        i = i + 1;
    }
    Ok(bundles)
}

/// Renders `plan` into the dataflow of `ctx`, and gives the collection
/// that it comes to.
///
/// The plan is rendered if every collection that it refers to is bound
/// where it is referred to, no binding shadows another, and no binding
/// that refers to itself stands in it. The names that are bound are
/// afterwards what they were.
pub fn render_plan(ctx: &mut Context, plan: &Plan) -> (r: Result<CollectionBundle, RenderError>)
    requires
        old(ctx).wf(),
    ensures
        final(ctx).wf(),
        final(ctx).grown_from(*old(ctx)),
        final(ctx).bindings@ == old(ctx).bindings@,
        final(ctx).definitions@ == old(ctx).definitions@,
        match r {
            Ok(b) => plan_error(*plan, scope_of(old(ctx).bindings@)) is None && final(ctx).has_nodes(b) && lowered(
                *plan,
                final(ctx).nodes@,
                old(ctx).bindings@,
                old(ctx).as_of,
                old(ctx).until,
                b,
            ),
            Err(e) => plan_error(*plan, scope_of(old(ctx).bindings@)) == Some(e),
        },
    decreases plan, 0nat,
{
    let ghost start = *ctx;
    proof {
        assert(ctx.nodes@.take(ctx.nodes@.len() as int) =~= ctx.nodes@);
        assert(ctx.definitions@.take(ctx.definitions@.len() as int) =~= ctx.definitions@);
    }
    match plan {
        Plan::Constant { rows, error } => Ok(ctx.render_constant(rows, *error)),
        Plan::Get { id, identity } => {
            match ctx.lookup_id(*id) {
                None => Err(RenderError::GetNotFound(*id)),
                Some(b) => {
                    if *identity {
                        Ok(b)
                    } else {
                        Ok(ctx.render_fallible(Operator::Mfp { input: b.oks }, b))
                    }
                },
            }
        },
        Plan::Let { id, value: value_plan, body } => {
            let value = match render_plan(ctx, value_plan) {
                Ok(b) => b,
                Err(e) => {
                    return Err(e);
                },
            };
            if ctx.lookup_id(Id::Local(*id)).is_some() {
                return Err(RenderError::Shadowed(Id::Local(*id)));
            }
            let ghost mid = *ctx;
            ctx.insert_id(Id::Local(*id), value);
            let ghost bound = *ctx;
            proof {
                lemma_scope_push(mid.bindings@, Id::Local(*id), value);
            }
            let r = render_plan(ctx, body);
            let ghost after = *ctx;
            ctx.remove_last();
            proof {
                assert(bound.bindings@.drop_last() =~= mid.bindings@);
                assert(bound.grown_from(start));
                after.lemma_grown_transitive(bound, start);
                if r is Ok {
                    lemma_lowered_grown(
                        **value_plan,
                        mid.nodes@,
                        ctx.nodes@,
                        start.bindings@,
                        start.as_of,
                        start.until,
                        value,
                    );
                    assert(any_bundle(value));
                }
            }
            r
        },
        Plan::LetRec { .. } => Err(RenderError::UnexpectedLetRec),
        Plan::Mfp { input, identity } => {
            match render_plan(ctx, input) {
                Err(e) => Err(e),
                Ok(b) => {
                    if *identity {
                        assert(any_bundle(b));
                        Ok(b)
                    } else {
                        let ghost mid = *ctx;
                        let r = ctx.render_fallible(Operator::Mfp { input: b.oks }, b);
                        proof {
                            ctx.lemma_grown_transitive(mid, start);
                            lemma_lowered_grown(
                                **input,
                                mid.nodes@,
                                ctx.nodes@,
                                start.bindings@,
                                start.as_of,
                                start.until,
                                b,
                            );
                            assert(any_bundle(b));
                        }
                        Ok(r)
                    }
                },
            }
        },
        Plan::FlatMap { input } => {
            match render_plan(ctx, input) {
                Err(e) => Err(e),
                Ok(b) => {
                    let ghost mid = *ctx;
                    let r = ctx.render_fallible(Operator::FlatMap { input: b.oks }, b);
                    proof {
                        ctx.lemma_grown_transitive(mid, start);
                        lemma_lowered_grown(
                            **input,
                            mid.nodes@,
                            ctx.nodes@,
                            start.bindings@,
                            start.as_of,
                            start.until,
                            b,
                        );
                        assert(any_bundle(b));
                    }
                    Ok(r)
                },
            }
        },
        Plan::Reduce { input } => {
            match render_plan(ctx, input) {
                Err(e) => Err(e),
                Ok(b) => {
                    let ghost mid = *ctx;
                    let r = ctx.render_fallible(Operator::Reduce { input: b.oks }, b);
                    proof {
                        ctx.lemma_grown_transitive(mid, start);
                        lemma_lowered_grown(
                            **input,
                            mid.nodes@,
                            ctx.nodes@,
                            start.bindings@,
                            start.as_of,
                            start.until,
                            b,
                        );
                        assert(any_bundle(b));
                    }
                    Ok(r)
                },
            }
        },
        Plan::TopK { input } => {
            match render_plan(ctx, input) {
                Err(e) => Err(e),
                Ok(b) => {
                    let ghost mid = *ctx;
                    let r = ctx.render_fallible(Operator::TopK { input: b.oks }, b);
                    proof {
                        ctx.lemma_grown_transitive(mid, start);
                        lemma_lowered_grown(
                            **input,
                            mid.nodes@,
                            ctx.nodes@,
                            start.bindings@,
                            start.as_of,
                            start.until,
                            b,
                        );
                        assert(any_bundle(b));
                    }
                    Ok(r)
                },
            }
        },
        Plan::ArrangeBy { input } => {
            match render_plan(ctx, input) {
                Err(e) => Err(e),
                Ok(b) => {
                    let ghost mid = *ctx;
                    let r = ctx.render_fallible(Operator::ArrangeBy { input: b.oks }, b);
                    proof {
                        ctx.lemma_grown_transitive(mid, start);
                        lemma_lowered_grown(
                            **input,
                            mid.nodes@,
                            ctx.nodes@,
                            start.bindings@,
                            start.as_of,
                            start.until,
                            b,
                        );
                        assert(any_bundle(b));
                    }
                    Ok(r)
                },
            }
        },
        Plan::Negate { input } => {
            match render_plan(ctx, input) {
                Err(e) => Err(e),
                Ok(b) => {
                    let ghost mid = *ctx;
                    let r = ctx.render_infallible(Operator::Negate { input: b.oks }, b);
                    proof {
                        ctx.lemma_grown_transitive(mid, start);
                        lemma_lowered_grown(
                            **input,
                            mid.nodes@,
                            ctx.nodes@,
                            start.bindings@,
                            start.as_of,
                            start.until,
                            b,
                        );
                        assert(any_bundle(b));
                    }
                    Ok(r)
                },
            }
        },
        Plan::Threshold { input } => {
            match render_plan(ctx, input) {
                Err(e) => Err(e),
                Ok(b) => {
                    let ghost mid = *ctx;
                    let r = ctx.render_infallible(Operator::Threshold { input: b.oks }, b);
                    proof {
                        ctx.lemma_grown_transitive(mid, start);
                        lemma_lowered_grown(
                            **input,
                            mid.nodes@,
                            ctx.nodes@,
                            start.bindings@,
                            start.as_of,
                            start.until,
                            b,
                        );
                        assert(any_bundle(b));
                    }
                    Ok(r)
                },
            }
        },
        Plan::Join { inputs, plan: join_plan } => {
            match render_plans(ctx, inputs) {
                Err(e) => Err(e),
                Ok(bundles) => {
                    let ghost mid = *ctx;
                    let r = ctx.render_join(&bundles, *join_plan);
                    proof {
                        ctx.lemma_grown_transitive(mid, start);
                        lemma_lowered_all_grown(
                            *inputs,
                            mid.nodes@,
                            ctx.nodes@,
                            start.bindings@,
                            start.as_of,
                            start.until,
                            bundles@,
                        );
                        assert(any_bundles(bundles@));
                    }
                    Ok(r)
                },
            }
        },
        Plan::Union { inputs, consolidate_output } => {
            match render_plans(ctx, inputs) {
                Err(e) => Err(e),
                Ok(bundles) => {
                    let ghost mid = *ctx;
                    let r = ctx.render_union(&bundles, *consolidate_output);
                    proof {
                        ctx.lemma_grown_transitive(mid, start);
                        lemma_lowered_all_grown(
                            *inputs,
                            mid.nodes@,
                            ctx.nodes@,
                            start.bindings@,
                            start.as_of,
                            start.until,
                            bundles@,
                        );
                        assert(any_bundles(bundles@));
                    }
                    Ok(r)
                },
            }
        },
    }
}

/// The digit `d` as a character.
pub open spec fn digit_char(d: nat) -> char {
    if d == 0 {
        '0'
    } else if d == 1 {
        '1'
    } else if d == 2 {
        '2'
    } else if d == 3 {
        '3'
    } else if d == 4 {
        '4'
    } else if d == 5 {
        '5'
    } else if d == 6 {
        '6'
    } else if d == 7 {
        '7'
    } else if d == 8 {
        '8'
    } else {
        '9'
    }
}

/// `n` in decimal digits, without leading zeros.
pub open spec fn decimal(n: nat) -> Seq<char>
    decreases n,
{
    if n < 10 {
        seq![digit_char(n)]
    } else {
        decimal(n / 10).push(digit_char(n % 10))
    }
}

fn digit_text(d: u64) -> (text: &'static str)
    requires
        d < 10,
    ensures
        text@ == seq![digit_char(d as nat)],
{
    proof {
        reveal_strlit("0");
        reveal_strlit("1");
        reveal_strlit("2");
        reveal_strlit("3");
        reveal_strlit("4");
        reveal_strlit("5");
        reveal_strlit("6");
        reveal_strlit("7");
        reveal_strlit("8");
        reveal_strlit("9");
    }
    let text = if d == 0 {
        "0"
    } else if d == 1 {
        "1"
    } else if d == 2 {
        "2"
    } else if d == 3 {
        "3"
    } else if d == 4 {
        "4"
    } else if d == 5 {
        "5"
    } else if d == 6 {
        "6"
    } else if d == 7 {
        "7"
    } else if d == 8 {
        "8"
    } else {
        "9"
    };
    assert(text@ =~= seq![digit_char(d as nat)]);
    text
}

/// `n` written in decimal digits.
pub fn decimal_text(n: u64) -> (text: String)
    ensures
        text@ == decimal(n as nat),
    decreases n,
{
    if n < 10 {
        digit_text(n).to_owned()
    } else {
        let mut text = decimal_text(n / 10);
        text.append(digit_text(n % 10));
        proof {
            assert(text@ =~= decimal((n / 10) as nat).push(digit_char((n % 10) as nat)));
        }
        text
    }
}

/// An update of the iteration `iteration_index`, counted from zero, is at
/// or beyond the limit: what it changes would go into an iteration that
/// the limit does not allow.
pub open spec fn over_limit(iteration_index: u64, limit: LetRecLimit) -> bool {
    iteration_index + 1 >= limit.max_iters
}

/// Whether an update of the iteration `iteration_index` is at or beyond
/// the limit.
pub fn is_over_limit(iteration_index: u64, limit: LetRecLimit) -> (over: bool)
    ensures
        over == over_limit(iteration_index, limit),
{
    limit.max_iters == 0 || iteration_index >= limit.max_iters - 1
}

/// An update of the iteration `iteration_index` goes into the next
/// iteration under `limit`: it does unless it is at or beyond the limit.
pub open spec fn fed_back(iteration_index: u64, limit: Option<LetRecLimit>) -> bool {
    !(limit matches Some(l) && over_limit(iteration_index, l))
}

/// The limit that is reported as exceeded for an update of the iteration
/// `iteration_index` under `limit`, in decimal digits: there is one where
/// the update is at or beyond the limit and what was reached at the limit
/// is not the result.
pub open spec fn limit_error(iteration_index: u64, limit: Option<LetRecLimit>) -> Option<
    Seq<char>,
> {
    match limit {
        Some(l) => if over_limit(iteration_index, l) && !l.return_at_limit {
            Some(decimal(l.max_iters as nat))
        } else {
            None
        },
        None => None,
    }
}

/// What becomes of an update of a binding that refers to itself.
#[derive(Debug, Clone, PartialEq, Eq)]
pub struct Routing {
    /// The update goes into the next iteration.
    pub fed_back: bool,
    /// The error that is reported in its place.
    pub error: Option<EvalError>,
}

/// Decides what becomes of an update of the iteration `iteration_index`
/// under `limit`. Before the limit, and without a limit, it goes into the
/// next iteration. At or beyond the limit it does not; then, unless what
/// was reached at the limit is the result, the error that the limit was
/// exceeded is reported, with the limit in decimal digits.
pub fn route_update(iteration_index: u64, limit: Option<LetRecLimit>) -> (r: Routing)
    ensures
        r.fed_back == fed_back(iteration_index, limit),
        match r.error {
            Some(EvalError::LetRecLimitExceeded(text)) => limit_error(iteration_index, limit)
                == Some(text@),
            None => limit_error(iteration_index, limit) is None,
        },
        match r.error {
            Some(e) => limit matches Some(l) && (over_limit(iteration_index, l)
                && !l.return_at_limit && (e matches EvalError::LetRecLimitExceeded(text) && text@
                == decimal(l.max_iters as nat))),
            None => !(limit matches Some(l) && over_limit(iteration_index, l)
                && !l.return_at_limit),
        },
{
    match limit {
        None => Routing { fed_back: true, error: None },
        Some(l) => {
            if !is_over_limit(iteration_index, l) {
                Routing { fed_back: true, error: None }
            } else if l.return_at_limit {
                Routing { fed_back: false, error: None }
            } else {
                Routing {
                    fed_back: false,
                    error: Some(EvalError::LetRecLimitExceeded(decimal_text(l.max_iters))),
                }
            }
        },
    }
}

/// The nodes that close the loop of one binding, where the first of them
/// comes to stand at `base`: the rows of `value` consolidated, so that the
/// iteration ends when nothing changes any more; under a limit, the part of
/// them before the limit, and, unless what was reached at the limit is the
/// result, the errors of `value` together with the error that the limit was
/// exceeded; and last the errors, each once.
pub open spec fn closing(base: int, level: usize, value: CollectionBundle, limit: Option<LetRecLimit>) -> Seq<
    Operator,
> {
    let consolidated = seq![Operator::Consolidate { input: value.oks }];
    match limit {
        None => consolidated.push(Operator::Distinct { input: value.errs }),
        Some(l) => {
            let within = consolidated.push(
                Operator::WithinLimit { input: base as usize, level, max_iters: l.max_iters },
            );
            if l.return_at_limit {
                within.push(Operator::Distinct { input: value.errs })
            } else {
                within.push(
                    Operator::LimitExceeded {
                        input: base as usize,
                        errors: value.errs,
                        level,
                        max_iters: l.max_iters,
                    },
                ).push(Operator::Distinct { input: (base + 2) as usize })
            }
        },
    }
}

impl Operator {
    /// This node lets an update of its input of the iteration
    /// `iteration_index` through. Only the node that holds rows to a limit
    /// keeps any back: those at or beyond the limit.
    pub open spec fn lets_through(self, iteration_index: u64) -> bool {
        match self {
            Operator::WithinLimit { max_iters, .. } => fed_back(
                iteration_index,
                Some(LetRecLimit { max_iters, return_at_limit: true }),
            ),
            _ => true,
        }
    }

    /// The limit that this node reports as exceeded for an update of its
    /// input of the iteration `iteration_index`. Only the node that reports
    /// an exceeded limit does so, for the updates at or beyond the limit.
    pub open spec fn reports(self, iteration_index: u64) -> Option<Seq<char>> {
        match self {
            Operator::LimitExceeded { max_iters, .. } => limit_error(
                iteration_index,
                Some(LetRecLimit { max_iters, return_at_limit: false }),
            ),
            _ => None,
        }
    }

    /// Whether this node lets an update of its input of the iteration
    /// `iteration_index` through.
    pub fn passes(&self, iteration_index: u64) -> (through: bool)
        ensures
            through == self.lets_through(iteration_index),
    {
        match self {
            Operator::WithinLimit { max_iters, .. } => route_update(
                iteration_index,
                Some(LetRecLimit { max_iters: *max_iters, return_at_limit: true }),
            ).fed_back,
            _ => true,
        }
    }

    /// The error that this node reports for an update of its input of the
    /// iteration `iteration_index`.
    pub fn error_for(&self, iteration_index: u64) -> (error: Option<EvalError>)
        ensures
            match error {
                Some(EvalError::LetRecLimitExceeded(text)) => self.reports(iteration_index)
                    == Some(text@),
                None => self.reports(iteration_index) is None,
            },
    {
        match self {
            Operator::LimitExceeded { max_iters, .. } => route_update(
                iteration_index,
                Some(LetRecLimit { max_iters: *max_iters, return_at_limit: false }),
            ).error,
            _ => None,
        }
    }
}

/// The closing nodes of a binding do with an update of the iteration
/// `iteration_index` what its limit asks for: the node that defines the
/// rows of the binding, and every node before it, lets the update through
/// exactly where it goes into the next iteration, and a node reports the
/// limit as exceeded exactly where the limit asks for that error.
pub proof fn lemma_closing_routes(
    base: int,
    level: usize,
    value: CollectionBundle,
    limit: Option<LetRecLimit>,
    iteration_index: u64,
)
    requires
        0 <= base,
    ensures
        ({
            let operators = closing(base, level, value, limit);
            let rows = closing_rows(base, limit) - base;
            &&& 0 <= rows < operators.len()
            &&& operators[rows].lets_through(iteration_index) == fed_back(iteration_index, limit)
            &&& forall|q: int|
                0 <= q < rows ==> (#[trigger] operators[q]).lets_through(iteration_index)
            &&& forall|text: Seq<char>|
                (exists|q: int|
                    0 <= q < operators.len() && (#[trigger] operators[q]).reports(iteration_index)
                        == Some(text)) <==> limit_error(iteration_index, limit) == Some(text)
        }),
{
    let operators = closing(base, level, value, limit);
    assert forall|text: Seq<char>|
        (exists|q: int|
            0 <= q < operators.len() && (#[trigger] operators[q]).reports(iteration_index) == Some(
                text,
            )) <==> limit_error(iteration_index, limit) == Some(text) by {
        if limit_error(iteration_index, limit) == Some(text) {
            assert(operators[2].reports(iteration_index) == Some(text));
        }
    }
}

/// The nodes with the operators `operators`, all held by `token`.
pub open spec fn held_by(operators: Seq<Operator>, token: Option<u64>) -> Seq<Node> {
    operators.map_values(|operator: Operator| (Node { operator, owner: token }))
}

/// The operators of `nodes`.
pub open spec fn operators_of(nodes: Seq<Node>) -> Seq<Operator> {
    nodes.map_values(|n: Node| n.operator)
}

/// The place of the node that defines the rows of a binding whose closing
/// nodes begin at `base`: the part before the limit, or without a limit
/// the consolidated rows.
pub open spec fn closing_rows(base: int, limit: Option<LetRecLimit>) -> int {
    if limit is Some {
        base + 1
    } else {
        base
    }
}

/// Holds of every two places; it marks the places at which a binding is
/// closed.
pub open spec fn any_place(base: int, j: int) -> bool {
    true
}

/// The loop of a binding is closed with its closing nodes from `base` on
/// and its two definitions from `j` on: the variable of the rows is
/// defined by the rows that the closing nodes give, the variable of the
/// errors by the last of them.
pub open spec fn closed_at(
    nodes: Seq<Node>,
    definitions: Seq<(usize, usize)>,
    level: usize,
    variable: CollectionBundle,
    value: CollectionBundle,
    limit: Option<LetRecLimit>,
    base: int,
    j: int,
) -> bool {
    let operators = closing(base, level, value, limit);
    &&& 0 <= base
    &&& base + operators.len() <= nodes.len()
    &&& operators_of(nodes.subrange(base, base + operators.len())) == operators
    &&& 0 <= j
    &&& j + 1 < definitions.len()
    &&& definitions[j] == (variable.oks, closing_rows(base, limit) as usize)
    &&& definitions[j + 1] == (variable.errs, (base + operators.len() - 1) as usize)
}

/// The loop of the binding with the variables `variable` and the value
/// `value` is closed under `limit`.
pub open spec fn closed(
    nodes: Seq<Node>,
    definitions: Seq<(usize, usize)>,
    level: usize,
    variable: CollectionBundle,
    value: CollectionBundle,
    limit: Option<LetRecLimit>,
) -> bool {
    exists|base: int, j: int| #[trigger]
        any_place(base, j) && closed_at(nodes, definitions, level, variable, value, limit, base, j)
}

/// `bindings` with the first `k` of the names `ids` bound in turn, each to
/// the collection of `bundles` at its place.
pub open spec fn bound_in_turn(
    bindings: Seq<(Id, CollectionBundle)>,
    ids: Seq<u64>,
    bundles: Seq<CollectionBundle>,
    k: nat,
) -> Seq<(Id, CollectionBundle)>
    decreases k,
{
    if k == 0 {
        bindings
    } else {
        bound_in_turn(bindings, ids, bundles, (k - 1) as nat).push(
            (Id::Local(ids[k - 1]), bundles[k - 1]),
        )
    }
}

/// Both nodes of `v` are feedback variables of the iterations at `level`.
pub open spec fn is_variable(nodes: Seq<Node>, v: CollectionBundle, level: usize) -> bool {
    &&& v.oks < nodes.len()
    &&& v.errs < nodes.len()
    &&& nodes[v.oks as int].operator == (Operator::Variable { level })
    &&& nodes[v.errs as int].operator == (Operator::Variable { level })
}

/// The nodes of `l` take what is bound to `id` out of the iterations at
/// `level`.
pub open spec fn left(
    nodes: Seq<Node>,
    bindings: Seq<(Id, CollectionBundle)>,
    id: u64,
    level: usize,
    l: CollectionBundle,
) -> bool {
    &&& l.oks < nodes.len()
    &&& l.errs < nodes.len()
    &&& Context::bound(bindings, Id::Local(id)) matches Some(inner) && nodes[l.oks as int].operator
        == (Operator::Leave { input: inner.oks, level }) && nodes[l.errs as int].operator == (
    Operator::Leave { input: inner.errs, level })
}

/// The names up to the last of `taken` are taken out of the iterations at
/// `level`, each where the names before it are bound to what was taken
/// out.
#[verifier::opaque]
pub open spec fn leaves_done(
    nodes: Seq<Node>,
    bindings: Seq<(Id, CollectionBundle)>,
    ids: Seq<u64>,
    level: usize,
    taken: Seq<CollectionBundle>,
) -> bool {
    forall|k: int|
        0 <= k < taken.len() ==> left(
            nodes,
            bound_in_turn(bindings, ids, taken, k as nat),
            ids[k],
            level,
            #[trigger] taken[k],
        )
}

/// When one more name is taken out of the iterations by two nodes at the
/// end, the names up to it are taken out.
pub proof fn lemma_left_one_more(
    before: Seq<Node>,
    after: Seq<Node>,
    bindings: Seq<(Id, CollectionBundle)>,
    ids: Seq<u64>,
    taken: Seq<CollectionBundle>,
    bundle: CollectionBundle,
    inner: CollectionBundle,
    level: usize,
)
    requires
        leaves_done(before, bindings, ids, level, taken),
        taken.len() < ids.len(),
        after.len() == before.len() + 2,
        after.take(before.len() as int) == before,
        bundle.oks == before.len(),
        bundle.errs == before.len() + 1,
        after[bundle.oks as int].operator == (Operator::Leave { input: inner.oks, level }),
        after[bundle.errs as int].operator == (Operator::Leave { input: inner.errs, level }),
        Context::bound(bound_in_turn(bindings, ids, taken, taken.len()), Id::Local(ids[taken.len() as int]))
            == Some(inner),
    ensures
        leaves_done(after, bindings, ids, level, taken.push(bundle)),
{
    reveal(leaves_done);
    let pushed = taken.push(bundle);
    assert forall|k: int| 0 <= k < pushed.len() implies left(
        after,
        bound_in_turn(bindings, ids, pushed, k as nat),
        ids[k],
        level,
        #[trigger] pushed[k],
    ) by {
        lemma_bound_in_turn_prefix(bindings, ids, taken, pushed, k as nat);
        if k < taken.len() {
            assert(pushed[k] == taken[k]);
            assert(left(
                before,
                bound_in_turn(bindings, ids, taken, k as nat),
                ids[k],
                level,
                taken[k],
            ));
            assert(after.take(before.len() as int)[taken[k].oks as int] == after[taken[k].oks as int]);
            assert(after.take(before.len() as int)[taken[k].errs as int]
                == after[taken[k].errs as int]);
        }
    }
}

/// Holds of all collections; it marks the variables, the values and what
/// leaves the iterations of bindings that refer to themselves.
pub open spec fn any_loop(
    vars: Seq<CollectionBundle>,
    vs: Seq<CollectionBundle>,
    ls: Seq<CollectionBundle>,
) -> bool {
    true
}

/// The nodes `nodes` and the definitions `definitions` hold `plan`, in
/// which bindings may refer to themselves, rendered to the collection `b`
/// at the depth `level` of iterations, where `bindings` are bound.
///
/// A plan without such bindings at its top is rendered as `lowered` says.
/// For bindings that refer to themselves every name has two variables of
/// the iterations one level deeper, to which it is bound first. Every
/// value is rendered one level deeper, where the variables and the values
/// before it are bound, and its loop is closed under its limit. Then what
/// is bound to every name is taken out of the iterations, the name is
/// bound to that, and the body is rendered to `b`.
pub open spec fn lowered_recursive(
    plan: Plan,
    nodes: Seq<Node>,
    definitions: Seq<(usize, usize)>,
    bindings: Seq<(Id, CollectionBundle)>,
    as_of: Frontier,
    until: Frontier,
    level: usize,
    b: CollectionBundle,
) -> bool
    decreases plan, 0nat,
{
    match plan {
        Plan::LetRec { ids, values, limits, body } => {
            &&& ids@.len() == values@.len()
            &&& ids@.len() == limits@.len()
            &&& level < usize::MAX
            &&& exists|
                vars: Seq<CollectionBundle>,
                vs: Seq<CollectionBundle>,
                ls: Seq<CollectionBundle>,
            | #[trigger]
                any_loop(vars, vs, ls) && vars.len() == ids@.len() && vs.len() == ids@.len()
                    && ls.len() == ids@.len() && (forall|k: int|
                    0 <= k < ids@.len() ==> is_variable(
                        nodes,
                        #[trigger] vars[k],
                        (level + 1) as usize,
                    )) && lowered_values(
                    values,
                    nodes,
                    definitions,
                    bound_in_turn(bindings, ids@, vars, ids@.len()),
                    ids@,
                    as_of,
                    until,
                    (level + 1) as usize,
                    vs,
                ) && (forall|k: int|
                    0 <= k < ids@.len() ==> closed(
                        nodes,
                        definitions,
                        level,
                        vars[k],
                        #[trigger] vs[k],
                        limits@[k],
                    )) && (forall|k: int|
                    0 <= k < ids@.len() ==> left(
                        nodes,
                        bound_in_turn(
                            bound_in_turn(
                                bound_in_turn(bindings, ids@, vars, ids@.len()),
                                ids@,
                                vs,
                                ids@.len(),
                            ),
                            ids@,
                            ls,
                            k as nat,
                        ),
                        ids@[k],
                        (level + 1) as usize,
                        #[trigger] ls[k],
                    )) && lowered_recursive(
                    *body,
                    nodes,
                    definitions,
                    bound_in_turn(
                        bound_in_turn(
                            bound_in_turn(bindings, ids@, vars, ids@.len()),
                            ids@,
                            vs,
                            ids@.len(),
                        ),
                        ids@,
                        ls,
                        ids@.len(),
                    ),
                    as_of,
                    until,
                    level,
                    b,
                )
        },
        _ => lowered(plan, nodes, bindings, as_of, until, b),
    }
}

/// The nodes hold every value of `values` rendered to the collection of
/// `vs` at its place, where besides `bindings` the values before it are
/// bound to the names `ids`.
pub open spec fn lowered_values(
    values: Vec<Plan>,
    nodes: Seq<Node>,
    definitions: Seq<(usize, usize)>,
    bindings: Seq<(Id, CollectionBundle)>,
    ids: Seq<u64>,
    as_of: Frontier,
    until: Frontier,
    level: usize,
    vs: Seq<CollectionBundle>,
) -> bool
    decreases values, 1nat,
{
    vs.len() == values@.len() && forall|k: int|
        0 <= k < values@.len() ==> lowered_recursive(
            values@[k],
            nodes,
            definitions,
            bound_in_turn(bindings, ids, vs, k as nat),
            as_of,
            until,
            level,
            #[trigger] vs[k],
        )
}

/// What is bound in turn depends on the collections up to the last one
/// that is bound only.
pub proof fn lemma_bound_in_turn_prefix(
    bindings: Seq<(Id, CollectionBundle)>,
    ids: Seq<u64>,
    a: Seq<CollectionBundle>,
    b: Seq<CollectionBundle>,
    k: nat,
)
    requires
        k <= a.len(),
        k <= b.len(),
        forall|j: int| 0 <= j < k ==> a[j] == b[j],
    ensures
        bound_in_turn(bindings, ids, a, k) == bound_in_turn(bindings, ids, b, k),
    decreases k,
{
    if k > 0 {
        lemma_bound_in_turn_prefix(bindings, ids, a, b, (k - 1) as nat);
    }
}

/// A loop that is closed stays closed as the dataflow grows.
pub proof fn lemma_closed_grown(
    nodes: Seq<Node>,
    definitions: Seq<(usize, usize)>,
    more: Seq<Node>,
    more_definitions: Seq<(usize, usize)>,
    level: usize,
    variable: CollectionBundle,
    value: CollectionBundle,
    limit: Option<LetRecLimit>,
)
    requires
        closed(nodes, definitions, level, variable, value, limit),
        nodes.len() <= more.len(),
        more.take(nodes.len() as int) == nodes,
        definitions.len() <= more_definitions.len(),
        more_definitions.take(definitions.len() as int) == definitions,
    ensures
        closed(more, more_definitions, level, variable, value, limit),
{
    let (base, j) = choose|base: int, j: int| #[trigger]
        any_place(base, j) && closed_at(nodes, definitions, level, variable, value, limit, base, j);
    let operators = closing(base, level, value, limit);
    assert(more.subrange(base, base + operators.len()) =~= nodes.subrange(
        base,
        base + operators.len(),
    ));
    assert(more_definitions[j] == more_definitions.take(definitions.len() as int)[j]);
    assert(more_definitions[j + 1] == more_definitions.take(definitions.len() as int)[j + 1]);
    assert(any_place(base, j) && closed_at(
        more,
        more_definitions,
        level,
        variable,
        value,
        limit,
        base,
        j,
    ));
}

/// A plan with bindings that refer to themselves stays rendered as the
/// dataflow grows.
pub proof fn lemma_lowered_recursive_grown(
    plan: Plan,
    nodes: Seq<Node>,
    definitions: Seq<(usize, usize)>,
    more: Seq<Node>,
    more_definitions: Seq<(usize, usize)>,
    bindings: Seq<(Id, CollectionBundle)>,
    as_of: Frontier,
    until: Frontier,
    level: usize,
    b: CollectionBundle,
)
    requires
        lowered_recursive(plan, nodes, definitions, bindings, as_of, until, level, b),
        nodes.len() <= more.len(),
        more.take(nodes.len() as int) == nodes,
        definitions.len() <= more_definitions.len(),
        more_definitions.take(definitions.len() as int) == definitions,
    ensures
        lowered_recursive(plan, more, more_definitions, bindings, as_of, until, level, b),
    decreases plan, 0nat,
{
    assert forall|k: int| 0 <= k < nodes.len() implies #[trigger] more[k] == nodes[k] by {
        assert(more.take(nodes.len() as int)[k] == more[k]);
    }
    match plan {
        Plan::LetRec { ids, values, limits, body } => {
            let n = ids@.len();
            let inner = (level + 1) as usize;
            let (vars, vs, ls) = choose|
                vars: Seq<CollectionBundle>,
                vs: Seq<CollectionBundle>,
                ls: Seq<CollectionBundle>,
            | #[trigger]
                any_loop(vars, vs, ls) && vars.len() == ids@.len() && vs.len() == ids@.len()
                    && ls.len() == ids@.len() && (forall|k: int|
                    0 <= k < ids@.len() ==> is_variable(
                        nodes,
                        #[trigger] vars[k],
                        (level + 1) as usize,
                    )) && lowered_values(
                    values,
                    nodes,
                    definitions,
                    bound_in_turn(bindings, ids@, vars, ids@.len()),
                    ids@,
                    as_of,
                    until,
                    (level + 1) as usize,
                    vs,
                ) && (forall|k: int|
                    0 <= k < ids@.len() ==> closed(
                        nodes,
                        definitions,
                        level,
                        vars[k],
                        #[trigger] vs[k],
                        limits@[k],
                    )) && (forall|k: int|
                    0 <= k < ids@.len() ==> left(
                        nodes,
                        bound_in_turn(
                            bound_in_turn(
                                bound_in_turn(bindings, ids@, vars, ids@.len()),
                                ids@,
                                vs,
                                ids@.len(),
                            ),
                            ids@,
                            ls,
                            k as nat,
                        ),
                        ids@[k],
                        (level + 1) as usize,
                        #[trigger] ls[k],
                    )) && lowered_recursive(
                    *body,
                    nodes,
                    definitions,
                    bound_in_turn(
                        bound_in_turn(
                            bound_in_turn(bindings, ids@, vars, ids@.len()),
                            ids@,
                            vs,
                            ids@.len(),
                        ),
                        ids@,
                        ls,
                        ids@.len(),
                    ),
                    as_of,
                    until,
                    level,
                    b,
                );
            let with_vars = bound_in_turn(bindings, ids@, vars, n);
            let with_values = bound_in_turn(with_vars, ids@, vs, n);
            let with_leaves = bound_in_turn(with_values, ids@, ls, n);
            lemma_lowered_values_grown(
                values,
                nodes,
                definitions,
                more,
                more_definitions,
                with_vars,
                ids@,
                as_of,
                until,
                inner,
                vs,
            );
            assert forall|k: int| 0 <= k < n implies closed(
                more,
                more_definitions,
                level,
                vars[k],
                #[trigger] vs[k],
                limits@[k],
            ) by {
                lemma_closed_grown(
                    nodes,
                    definitions,
                    more,
                    more_definitions,
                    level,
                    vars[k],
                    vs[k],
                    limits@[k],
                );
            }
            assert forall|k: int| 0 <= k < n implies is_variable(more, #[trigger] vars[k], inner) by {
                assert(is_variable(nodes, vars[k], inner));
            }
            assert forall|k: int| 0 <= k < n implies left(
                more,
                bound_in_turn(with_values, ids@, ls, k as nat),
                ids@[k],
                inner,
                #[trigger] ls[k],
            ) by {
                assert(left(
                    nodes,
                    bound_in_turn(with_values, ids@, ls, k as nat),
                    ids@[k],
                    inner,
                    ls[k],
                ));
            }
            lemma_lowered_recursive_grown(
                *body,
                nodes,
                definitions,
                more,
                more_definitions,
                with_leaves,
                as_of,
                until,
                level,
                b,
            );
            assert(any_loop(vars, vs, ls));
        },
        _ => {
            lemma_lowered_grown(plan, nodes, more, bindings, as_of, until, b);
        },
    }
}

/// The values of bindings stay rendered as the dataflow grows.
pub proof fn lemma_lowered_values_grown(
    values: Vec<Plan>,
    nodes: Seq<Node>,
    definitions: Seq<(usize, usize)>,
    more: Seq<Node>,
    more_definitions: Seq<(usize, usize)>,
    bindings: Seq<(Id, CollectionBundle)>,
    ids: Seq<u64>,
    as_of: Frontier,
    until: Frontier,
    level: usize,
    vs: Seq<CollectionBundle>,
)
    requires
        lowered_values(values, nodes, definitions, bindings, ids, as_of, until, level, vs),
        nodes.len() <= more.len(),
        more.take(nodes.len() as int) == nodes,
        definitions.len() <= more_definitions.len(),
        more_definitions.take(definitions.len() as int) == definitions,
    ensures
        lowered_values(values, more, more_definitions, bindings, ids, as_of, until, level, vs),
    decreases values, 1nat,
{
    assert forall|k: int| 0 <= k < values@.len() implies lowered_recursive(
        values@[k],
        more,
        more_definitions,
        bound_in_turn(bindings, ids, vs, k as nat),
        as_of,
        until,
        level,
        #[trigger] vs[k],
    ) by {
        lemma_lowered_recursive_grown(
            values@[k],
            nodes,
            definitions,
            more,
            more_definitions,
            bound_in_turn(bindings, ids, vs, k as nat),
            as_of,
            until,
            level,
            vs[k],
        );
    }
}

impl Context {
    /// A node of the dataflow that this one has grown from is still what
    /// it was.
    pub proof fn lemma_grown_node(&self, before: Context, i: int)
        requires
            self.grown_from(before),
            0 <= i < before.nodes@.len(),
        ensures
            self.nodes@[i] == before.nodes@[i],
    {
        assert(self.nodes@[i] == self.nodes@.take(before.nodes@.len() as int)[i]);
    }

    /// Closes the loop of one binding: the variable of its rows is defined
    /// by the rows of `value`, consolidated and held to `limit`, and the
    /// variable of its errors by the errors, each once.
    pub fn close_binding(
        &mut self,
        level: usize,
        variable: CollectionBundle,
        value: CollectionBundle,
        limit: Option<LetRecLimit>,
    )
        requires
            old(self).wf(),
            old(self).has_nodes(variable),
            old(self).has_nodes(value),
            old(self).nodes@[variable.oks as int].operator is Variable,
            old(self).nodes@[variable.errs as int].operator is Variable,
        ensures
            final(self).wf(),
            final(self).grown_from(*old(self)),
            final(self).bindings == old(self).bindings,
            final(self).nodes@ == old(self).nodes@ + held_by(
                closing(old(self).nodes@.len() as int, level, value, limit),
                old(self).token,
            ),
            final(self).definitions@ == old(self).definitions@.push(
                (
                    variable.oks,
                    if limit is Some {
                        (old(self).nodes@.len() + 1) as usize
                    } else {
                        old(self).nodes@.len() as usize
                    },
                ),
            ).push((variable.errs, (final(self).nodes@.len() - 1) as usize)),
    {
        let ghost start = *self;
        let ghost base = self.nodes@.len() as int;
        let consolidated = self.add(Operator::Consolidate { input: value.oks });
        let ghost first = *self;
        let mut oks = consolidated;
        let mut errs = value.errs;
        if let Some(l) = limit {
            oks = self.add(
                Operator::WithinLimit { input: consolidated, level, max_iters: l.max_iters },
            );
            proof {
                self.lemma_grown_transitive(first, start);
            }
            if !l.return_at_limit {
                let ghost second = *self;
                errs = self.add(
                    Operator::LimitExceeded {
                        input: consolidated,
                        errors: value.errs,
                        level,
                        max_iters: l.max_iters,
                    },
                );
                proof {
                    self.lemma_grown_transitive(second, start);
                }
            }
        }
        let ghost third = *self;
        let distinct = self.add(Operator::Distinct { input: errs });
        proof {
            self.lemma_grown_transitive(third, start);
            assert(self.nodes@ =~= start.nodes@ + held_by(
                closing(base, level, value, limit),
                start.token,
            ));
            self.lemma_grown_node(start, variable.oks as int);
            self.lemma_grown_node(start, variable.errs as int);
        }
        let ghost fourth = *self;
        self.set_recursive(variable.oks, oks);
        let ghost fifth = *self;
        self.set_recursive(variable.errs, distinct);
        proof {
            fifth.lemma_grown_transitive(fourth, start);
            self.lemma_grown_transitive(fifth, start);
        }
    }

    /// Makes a feedback variable for every one of `ids`, for its rows and
    /// for its errors, and binds the name to it.
    pub fn bind_variables(&mut self, level: usize, ids: &Vec<u64>) -> (variables: Vec<
        CollectionBundle,
    >)
        requires
            old(self).wf(),
        ensures
            final(self).wf(),
            final(self).grown_from(*old(self)),
            final(self).definitions@ == old(self).definitions@,
            final(self).bindings@.len() == old(self).bindings@.len() + ids@.len(),
            final(self).bindings@.take(old(self).bindings@.len() as int) == old(self).bindings@,
            scope_of(final(self).bindings@) == scope_with(scope_of(old(self).bindings@), ids@),
            final(self).nodes@.len() == old(self).nodes@.len() + 2 * ids@.len(),
            variables@.len() == ids@.len(),
            forall|i: int|
                0 <= i < ids@.len() ==> (#[trigger] variables@[i]).oks == old(self).nodes@.len()
                    + 2 * i && variables@[i].errs == old(self).nodes@.len() + 2 * i + 1,
            forall|i: int|
                old(self).nodes@.len() <= i < final(self).nodes@.len() ==> (
                #[trigger] final(self).nodes@[i]).operator == (Operator::Variable { level }),
            final(self).bindings@ == bound_in_turn(
                old(self).bindings@,
                ids@,
                variables@,
                ids@.len(),
            ),
            forall|i: int|
                0 <= i < ids@.len() ==> is_variable(final(self).nodes@, #[trigger] variables@[i], level),
    {
        let ghost start = *self;
        let ghost scope = scope_of(self.bindings@);
        let mut variables: Vec<CollectionBundle> = Vec::new();
        let mut i: usize = 0;
        proof {
            assert(self.nodes@.take(self.nodes@.len() as int) =~= self.nodes@);
            assert(self.definitions@.take(self.definitions@.len() as int) =~= self.definitions@);
            assert(self.bindings@.take(self.bindings@.len() as int) =~= self.bindings@);
            assert(ids@.take(0) =~= Seq::<u64>::empty());
            assert(scope_with(scope, Seq::<u64>::empty()) =~= scope);
        }
        while i < ids.len()
            invariant
                i <= ids.len(),
                start == *old(self),
                scope == scope_of(start.bindings@),
                self.wf(),
                self.grown_from(start),
                self.definitions@ == start.definitions@,
                self.bindings@.len() == start.bindings@.len() + i,
                self.bindings@.take(start.bindings@.len() as int) == start.bindings@,
                scope_of(self.bindings@) == scope_with(scope, ids@.take(i as int)),
                self.nodes@.len() == start.nodes@.len() + 2 * i,
                variables@.len() == i,
                forall|k: int|
                    0 <= k < i ==> (#[trigger] variables@[k]).oks == start.nodes@.len() + 2 * k
                        && variables@[k].errs == start.nodes@.len() + 2 * k + 1,
                forall|k: int|
                    start.nodes@.len() <= k < self.nodes@.len() ==> (
                    #[trigger] self.nodes@[k]).operator == (Operator::Variable { level }),
                self.bindings@ == bound_in_turn(start.bindings@, ids@, variables@, i as nat),
            decreases ids.len() - i,
        {
            let ghost mid = *self;
            let ghost named = variables@;
            let oks = self.add(Operator::Variable { level });
            let ghost first = *self;
            let errs = self.add(Operator::Variable { level });
            let ghost second = *self;
            let bundle = CollectionBundle { oks, errs };
            self.insert_id(Id::Local(ids[i]), bundle);
            variables.push(bundle);
            proof {
                second.lemma_grown_transitive(first, mid);
                second.lemma_grown_transitive(mid, start);
                lemma_scope_push(mid.bindings@, Id::Local(ids@[i as int]), bundle);
                assert(ids@.take(i + 1) =~= ids@.take(i as int).push(ids@[i as int]));
                lemma_scope_with_push(scope, ids@.take(i as int), ids@[i as int]);
                assert(self.bindings@.take(start.bindings@.len() as int) =~= mid.bindings@.take(
                    start.bindings@.len() as int,
                ));
                assert forall|k: int| start.nodes@.len() <= k < self.nodes@.len() implies (
                #[trigger] self.nodes@[k]).operator == (Operator::Variable { level }) by {
                    if k < mid.nodes@.len() {
                        second.lemma_grown_node(mid, k);
                    }
                }
                lemma_bound_in_turn_prefix(start.bindings@, ids@, named, variables@, i as nat);
            }
            i = i + 1;
        }
        proof {
            assert(ids@.take(ids@.len() as int) =~= ids@);
        }
        variables
    }

    /// Takes the collections that are bound to `ids` out of the iterations
    /// at `level`, and binds each name to what was taken out. Gives what
    /// was taken out, in the order of the names.
    pub fn leave_bindings(&mut self, level: usize, ids: &Vec<u64>) -> (leaves: Vec<
        CollectionBundle,
    >)
        requires
            old(self).wf(),
            forall|i: int|
                0 <= i < ids@.len() ==> scope_of(old(self).bindings@).contains(
                    Id::Local(#[trigger] ids@[i]),
                ),
        ensures
            final(self).wf(),
            final(self).grown_from(*old(self)),
            final(self).definitions@ == old(self).definitions@,
            final(self).bindings@.len() == old(self).bindings@.len() + ids@.len(),
            final(self).bindings@.take(old(self).bindings@.len() as int) == old(self).bindings@,
            scope_of(final(self).bindings@) == scope_of(old(self).bindings@),
            forall|i: int|
                old(self).nodes@.len() <= i < final(self).nodes@.len() ==> (
                #[trigger] final(self).nodes@[i]).operator is Leave,
            forall|i: int|
                0 <= i < ids@.len() ==> (#[trigger] final(self).bindings@[old(self).bindings@.len() + i]).0 == Id::Local(ids@[i]),
            leaves@.len() == ids@.len(),
            final(self).bindings@ == bound_in_turn(old(self).bindings@, ids@, leaves@, ids@.len()),
            leaves_done(final(self).nodes@, old(self).bindings@, ids@, level, leaves@),
    {
        let ghost start = *self;
        let ghost scope = scope_of(self.bindings@);
        let mut leaves: Vec<CollectionBundle> = Vec::new();
        let mut i: usize = 0;
        proof {
            assert(leaves_done(self.nodes@, start.bindings@, ids@, level, leaves@)) by {
                reveal(leaves_done);
            }
            assert(self.nodes@.take(self.nodes@.len() as int) =~= self.nodes@);
            assert(self.definitions@.take(self.definitions@.len() as int) =~= self.definitions@);
            assert(self.bindings@.take(self.bindings@.len() as int) =~= self.bindings@);
        }
        while i < ids.len()
            invariant
                i <= ids.len(),
                start == *old(self),
                scope == scope_of(start.bindings@),
                forall|k: int| 0 <= k < ids@.len() ==> scope.contains(Id::Local(#[trigger] ids@[k])),
                self.wf(),
                self.grown_from(start),
                self.definitions@ == start.definitions@,
                self.bindings@.len() == start.bindings@.len() + i,
                self.bindings@.take(start.bindings@.len() as int) == start.bindings@,
                scope_of(self.bindings@) == scope,
                forall|k: int|
                    start.nodes@.len() <= k < self.nodes@.len() ==> (
                    #[trigger] self.nodes@[k]).operator is Leave,
                forall|k: int|
                    0 <= k < i ==> (#[trigger] self.bindings@[start.bindings@.len() + k]).0
                        == Id::Local(ids@[k]),
                leaves@.len() == i,
                self.bindings@ == bound_in_turn(start.bindings@, ids@, leaves@, i as nat),
                leaves_done(self.nodes@, start.bindings@, ids@, level, leaves@),
            decreases ids.len() - i,
        {
            let ghost mid = *self;
            let ghost taken = leaves@;
            let id = Id::Local(ids[i]);
            proof {
                assert(scope.contains(Id::Local(ids@[i as int])));
            }
            if let Some(inner) = self.lookup_id(id) {
                let oks = self.add(Operator::Leave { input: inner.oks, level });
                let ghost first = *self;
                let errs = self.add(Operator::Leave { input: inner.errs, level });
                let ghost second = *self;
                let bundle = CollectionBundle { oks, errs };
                self.insert_id(id, bundle);
                leaves.push(bundle);
                proof {
                    second.lemma_grown_transitive(first, mid);
                    second.lemma_grown_transitive(mid, start);
                    lemma_bound_in_turn_prefix(start.bindings@, ids@, taken, leaves@, i as nat);
                    assert(leaves@ == taken.push(bundle));
                    assert(second.nodes@ == mid.nodes@.push(
                        Node { operator: Operator::Leave { input: inner.oks, level }, owner: mid.token },
                    ).push(
                        Node { operator: Operator::Leave { input: inner.errs, level }, owner: mid.token },
                    ));
                    lemma_left_one_more(
                        mid.nodes@,
                        self.nodes@,
                        start.bindings@,
                        ids@,
                        taken,
                        bundle,
                        inner,
                        level,
                    );
                    lemma_scope_push(mid.bindings@, id, bundle);
                    assert(scope.insert(id) =~= scope);
                    assert(self.bindings@.take(start.bindings@.len() as int) =~= mid.bindings@.take(
                        start.bindings@.len() as int,
                    ));
                    assert forall|k: int| start.nodes@.len() <= k < self.nodes@.len() implies (
                    #[trigger] self.nodes@[k]).operator is Leave by {
                        if k < mid.nodes@.len() {
                            second.lemma_grown_node(mid, k);
                        }
                    }
                    assert forall|k: int| 0 <= k < i + 1 implies (#[trigger] self.bindings@[
                        start.bindings@.len() + k]).0 == Id::Local(ids@[k]) by {
                        if k < i {
                            assert(self.bindings@[start.bindings@.len() + k]
                                == mid.bindings@[start.bindings@.len() + k]);
                        }
                    }
                }
            }
            i = i + 1;
        }
        leaves
    }
}

/// Binding one more local name adds it to the names that are bound.
pub proof fn lemma_scope_with_push(scope: Set<Id>, ids: Seq<u64>, x: u64)
    ensures
        scope_with(scope, ids.push(x)) == scope_with(scope, ids).insert(Id::Local(x)),
{
    let pushed = ids.push(x);
    assert forall|id: Id|
        scope_with(scope, pushed).contains(id) <==> scope_with(scope, ids).insert(
            Id::Local(x),
        ).contains(id) by {
        if let Id::Local(y) = id {
            if pushed.contains(y) {
                let k = choose|k: int| 0 <= k < pushed.len() && pushed[k] == y;
                if k < ids.len() {
                    assert(ids[k] == y);
                }
            }
            if ids.contains(y) {
                let k = choose|k: int| 0 <= k < ids.len() && ids[k] == y;
                assert(pushed[k] == y);
            }
            if y == x {
                assert(pushed[ids.len() as int] == x);
            }
        }
    }
    assert(scope_with(scope, pushed) =~= scope_with(scope, ids).insert(Id::Local(x)));
}

/// Why `plan` cannot be rendered at the depth `level` of iterations where
/// the names of `scope` are bound. Bindings that refer to themselves may
/// stand at the top of the plan, in the values of such bindings and in
/// their bodies, and nowhere else.
pub open spec fn recursive_error(plan: Plan, scope: Set<Id>, level: usize) -> Option<RenderError>
    decreases plan, 0nat,
{
    match plan {
        Plan::LetRec { ids, values, limits, body } => {
            if ids@.len() != values@.len() || ids@.len() != limits@.len() {
                Some(RenderError::MalformedLetRec)
            } else if level == usize::MAX {
                Some(RenderError::NestedTooDeep)
            } else {
                match bindings_error(values, scope_with(scope, ids@), (level + 1) as usize, 0) {
                    Some(e) => Some(e),
                    None => recursive_error(*body, scope_with(scope, ids@), level),
                }
            }
        },
        _ => plan_error(plan, scope),
    }
}

/// The first fault among the values of bindings from the place `from` on.
pub open spec fn bindings_error(values: Vec<Plan>, scope: Set<Id>, level: usize, from: nat) -> Option<
    RenderError,
>
    decreases values, values@.len() - from,
{
    if from >= values@.len() {
        None
    } else {
        match recursive_error(values@[from as int], scope, level) {
            Some(e) => Some(e),
            None => bindings_error(values, scope, level, from + 1),
        }
    }
}

impl Context {
    /// The variable at `variable` is defined.
    pub open spec fn defined(&self, variable: int) -> bool {
        exists|j: int|
            0 <= j < self.definitions@.len() && (#[trigger] self.definitions@[j]).0 == variable
    }

    /// A dataflow has grown from itself.
    pub proof fn lemma_grown_reflexive(&self)
        ensures
            self.grown_from(*self),
    {
        assert(self.nodes@.take(self.nodes@.len() as int) =~= self.nodes@);
        assert(self.definitions@.take(self.definitions@.len() as int) =~= self.definitions@);
    }

    /// A variable that is defined stays defined as the dataflow grows.
    pub proof fn lemma_defined_grown(&self, before: Context, variable: int)
        requires
            self.grown_from(before),
            before.defined(variable),
        ensures
            self.defined(variable),
    {
        let j = choose|j: int|
            0 <= j < before.definitions@.len() && (#[trigger] before.definitions@[j]).0
                == variable;
        assert(self.definitions@[j] == self.definitions@.take(
            before.definitions@.len() as int,
        )[j]);
    }
}

/// `more` are the nodes `nodes` and further ones behind them.
pub open spec fn extends_nodes(nodes: Seq<Node>, more: Seq<Node>) -> bool {
    nodes.len() <= more.len() && more.take(nodes.len() as int) == nodes
}

/// `more` are the definitions `definitions` and further ones behind them.
pub open spec fn extends_definitions(
    definitions: Seq<(usize, usize)>,
    more: Seq<(usize, usize)>,
) -> bool {
    definitions.len() <= more.len() && more.take(definitions.len() as int) == definitions
}

/// The first values of bindings that refer to themselves, as many as `vs`
/// holds, are rendered to the collections of `vs`, each where the
/// variables and the values before it are bound, and their loops are
/// closed.
#[verifier::opaque]
pub open spec fn values_done(
    values: Vec<Plan>,
    limits: Seq<Option<LetRecLimit>>,
    ids: Seq<u64>,
    variables: Seq<CollectionBundle>,
    with_vars: Seq<(Id, CollectionBundle)>,
    vs: Seq<CollectionBundle>,
    nodes: Seq<Node>,
    definitions: Seq<(usize, usize)>,
    level: usize,
    as_of: Frontier,
    until: Frontier,
) -> bool {
    &&& forall|k: int|
        0 <= k < vs.len() ==> lowered_recursive(
            values@[k],
            nodes,
            definitions,
            bound_in_turn(with_vars, ids, vs, k as nat),
            as_of,
            until,
            (level + 1) as usize,
            #[trigger] vs[k],
        )
    &&& forall|k: int|
        0 <= k < vs.len() ==> closed(
            nodes,
            definitions,
            level,
            variables[k],
            #[trigger] vs[k],
            limits[k],
        )
}

/// When one more value of bindings that refer to themselves is rendered
/// and its loop is closed, the values up to it are rendered and their
/// loops are closed.
pub proof fn lemma_value_closed(
    values: Vec<Plan>,
    limits: Seq<Option<LetRecLimit>>,
    ids: Seq<u64>,
    variables: Seq<CollectionBundle>,
    with_vars: Seq<(Id, CollectionBundle)>,
    before: Seq<CollectionBundle>,
    bundle: CollectionBundle,
    nodes: Seq<Node>,
    definitions: Seq<(usize, usize)>,
    rendered: Seq<Node>,
    rendered_definitions: Seq<(usize, usize)>,
    after: Seq<Node>,
    after_definitions: Seq<(usize, usize)>,
    token: Option<u64>,
    level: usize,
    as_of: Frontier,
    until: Frontier,
)
    requires
        level < usize::MAX,
        before.len() < values@.len(),
        values@.len() == limits.len(),
        values@.len() == variables.len(),
        values_done(
            values,
            limits,
            ids,
            variables,
            with_vars,
            before,
            nodes,
            definitions,
            level,
            as_of,
            until,
        ),
        extends_nodes(nodes, rendered),
        extends_definitions(definitions, rendered_definitions),
        lowered_recursive(
            values@[before.len() as int],
            rendered,
            rendered_definitions,
            bound_in_turn(with_vars, ids, before, before.len()),
            as_of,
            until,
            (level + 1) as usize,
            bundle,
        ),
        after == rendered + held_by(
            closing(rendered.len() as int, level, bundle, limits[before.len() as int]),
            token,
        ),
        after_definitions == rendered_definitions.push(
            (
                variables[before.len() as int].oks,
                closing_rows(rendered.len() as int, limits[before.len() as int]) as usize,
            ),
        ).push((variables[before.len() as int].errs, (after.len() - 1) as usize)),
    ensures
        values_done(
            values,
            limits,
            ids,
            variables,
            with_vars,
            before.push(bundle),
            after,
            after_definitions,
            level,
            as_of,
            until,
        ),
{
    reveal(values_done);
    let i = before.len() as int;
    let vs = before.push(bundle);
    let inner = (level + 1) as usize;
    assert(after.take(rendered.len() as int) =~= rendered);
    assert(after_definitions.take(rendered_definitions.len() as int) =~= rendered_definitions);
    assert(after.take(nodes.len() as int) =~= nodes) by {
        assert forall|q: int| 0 <= q < nodes.len() implies after[q] == nodes[q] by {
            assert(rendered.take(nodes.len() as int)[q] == rendered[q]);
        }
    }
    assert(after_definitions.take(definitions.len() as int) =~= definitions) by {
        assert forall|q: int| 0 <= q < definitions.len() implies after_definitions[q]
            == definitions[q] by {
            assert(rendered_definitions.take(definitions.len() as int)[q]
                == rendered_definitions[q]);
        }
    }
    assert forall|k: int| 0 <= k < i + 1 implies lowered_recursive(
        values@[k],
        after,
        after_definitions,
        bound_in_turn(with_vars, ids, vs, k as nat),
        as_of,
        until,
        inner,
        #[trigger] vs[k],
    ) by {
        lemma_bound_in_turn_prefix(with_vars, ids, before, vs, k as nat);
        if k < i {
            assert(vs[k] == before[k]);
            lemma_lowered_recursive_grown(
                values@[k],
                nodes,
                definitions,
                after,
                after_definitions,
                bound_in_turn(with_vars, ids, before, k as nat),
                as_of,
                until,
                inner,
                before[k],
            );
        } else {
            lemma_lowered_recursive_grown(
                values@[k],
                rendered,
                rendered_definitions,
                after,
                after_definitions,
                bound_in_turn(with_vars, ids, before, k as nat),
                as_of,
                until,
                inner,
                bundle,
            );
        }
    }
    assert forall|k: int| 0 <= k < i + 1 implies closed(
        after,
        after_definitions,
        level,
        variables[k],
        #[trigger] vs[k],
        limits[k],
    ) by {
        if k < i {
            assert(vs[k] == before[k]);
            lemma_closed_grown(
                nodes,
                definitions,
                after,
                after_definitions,
                level,
                variables[k],
                before[k],
                limits[k],
            );
        } else {
            let at = rendered.len() as int;
            let j = rendered_definitions.len() as int;
            let operators = closing(at, level, bundle, limits[k]);
            assert(after.subrange(at, at + operators.len()) =~= held_by(operators, token));
            assert(operators_of(held_by(operators, token)) =~= operators);
            assert(any_place(at, j) && closed_at(
                after,
                after_definitions,
                level,
                variables[k],
                bundle,
                limits[k],
                at,
                j,
            ));
        }
    }
}

/// Bindings that refer to themselves are rendered when their variables
/// are made, their values are rendered and closed, what is bound is taken
/// out of the iterations, and the body is rendered.
pub proof fn lemma_loop_lowered(
    plan: Plan,
    variables: Seq<CollectionBundle>,
    vs: Seq<CollectionBundle>,
    leaves: Seq<CollectionBundle>,
    bindings: Seq<(Id, CollectionBundle)>,
    opened: Seq<Node>,
    shut: Seq<Node>,
    shut_definitions: Seq<(usize, usize)>,
    gone: Seq<Node>,
    nodes: Seq<Node>,
    definitions: Seq<(usize, usize)>,
    as_of: Frontier,
    until: Frontier,
    level: usize,
    b: CollectionBundle,
)
    requires
        plan matches Plan::LetRec { ids, values, limits, body } && {
            let n = ids@.len();
            let inner = (level + 1) as usize;
            let with_vars = bound_in_turn(bindings, ids@, variables, n);
            let with_values = bound_in_turn(with_vars, ids@, vs, n);
            let with_leaves = bound_in_turn(with_values, ids@, leaves, n);
            &&& level < usize::MAX
            &&& n == values@.len()
            &&& n == limits@.len()
            &&& variables.len() == n
            &&& vs.len() == n
            &&& leaves.len() == n
            &&& extends_nodes(opened, nodes)
            &&& extends_nodes(shut, nodes)
            &&& extends_definitions(shut_definitions, definitions)
            &&& extends_nodes(gone, nodes)
            &&& forall|k: int| 0 <= k < n ==> is_variable(opened, #[trigger] variables[k], inner)
            &&& values_done(
                values,
                limits@,
                ids@,
                variables,
                with_vars,
                vs,
                shut,
                shut_definitions,
                level,
                as_of,
                until,
            )
            &&& leaves_done(gone, with_values, ids@, inner, leaves)
            &&& lowered_recursive(*body, nodes, definitions, with_leaves, as_of, until, level, b)
        },
    ensures
        lowered_recursive(plan, nodes, definitions, bindings, as_of, until, level, b),
{
    reveal(values_done);
    reveal(leaves_done);
    match plan {
        Plan::LetRec { ids, values, limits, body } => {
            let n = ids@.len();
            let inner = (level + 1) as usize;
            let with_vars = bound_in_turn(bindings, ids@, variables, n);
            let with_values = bound_in_turn(with_vars, ids@, vs, n);
            assert forall|q: int| 0 <= q < opened.len() implies nodes[q] == opened[q] by {
                assert(nodes.take(opened.len() as int)[q] == nodes[q]);
            }
            assert forall|q: int| 0 <= q < gone.len() implies nodes[q] == gone[q] by {
                assert(nodes.take(gone.len() as int)[q] == nodes[q]);
            }
            assert forall|k: int| 0 <= k < n implies is_variable(
                nodes,
                #[trigger] variables[k],
                inner,
            ) by {
                assert(is_variable(opened, variables[k], inner));
            }
            assert(lowered_values(
                values,
                nodes,
                definitions,
                with_vars,
                ids@,
                as_of,
                until,
                inner,
                vs,
            )) by {
                assert forall|k: int| 0 <= k < values@.len() implies lowered_recursive(
                    values@[k],
                    nodes,
                    definitions,
                    bound_in_turn(with_vars, ids@, vs, k as nat),
                    as_of,
                    until,
                    inner,
                    #[trigger] vs[k],
                ) by {
                    lemma_lowered_recursive_grown(
                        values@[k],
                        shut,
                        shut_definitions,
                        nodes,
                        definitions,
                        bound_in_turn(with_vars, ids@, vs, k as nat),
                        as_of,
                        until,
                        inner,
                        vs[k],
                    );
                }
            }
            assert forall|k: int| 0 <= k < n implies closed(
                nodes,
                definitions,
                level,
                variables[k],
                #[trigger] vs[k],
                limits@[k],
            ) by {
                lemma_closed_grown(
                    shut,
                    shut_definitions,
                    nodes,
                    definitions,
                    level,
                    variables[k],
                    vs[k],
                    limits@[k],
                );
            }
            assert forall|k: int| 0 <= k < n implies left(
                nodes,
                bound_in_turn(with_values, ids@, leaves, k as nat),
                ids@[k],
                inner,
                #[trigger] leaves[k],
            ) by {
                assert(left(
                    gone,
                    bound_in_turn(with_values, ids@, leaves, k as nat),
                    ids@[k],
                    inner,
                    leaves[k],
                ));
            }
            assert(any_loop(variables, vs, leaves));
        },
        _ => {},
    }
}

/// Renders `plan`, in which bindings may refer to themselves, into the
/// dataflow of `ctx` at the depth `level` of iterations.
///
/// For bindings that refer to themselves a variable is made for the rows
/// and for the errors of every binding. Every value is rendered one level
/// deeper with all the variables in scope, and then defines its variables,
/// which closes the loop. After that the bindings are taken out of the
/// iterations, and the body is rendered with them in scope. The names that
/// are bound are afterwards what they were.
#[verifier::loop_isolation(false)]
pub fn render_recursive_plan(ctx: &mut Context, level: usize, plan: &Plan) -> (r: Result<
    CollectionBundle,
    RenderError,
>)
    requires
        old(ctx).wf(),
    ensures
        final(ctx).wf(),
        final(ctx).grown_from(*old(ctx)),
        final(ctx).bindings@ == old(ctx).bindings@,
        match r {
            Ok(b) => recursive_error(*plan, scope_of(old(ctx).bindings@), level) is None
                && final(ctx).has_nodes(b),
            Err(e) => recursive_error(*plan, scope_of(old(ctx).bindings@), level) == Some(e),
        },
        r is Ok ==> (plan matches Plan::LetRec { ids, .. } ==> forall|i: int|
            old(ctx).nodes@.len() <= i < old(ctx).nodes@.len() + 2 * ids@.len() ==> (
            #[trigger] final(ctx).nodes@[i]).operator is Variable && final(ctx).defined(i)),
        !(plan is LetRec) ==> final(ctx).definitions@ == old(ctx).definitions@,
        // The collection that is given is what the plan is rendered to.
        r matches Ok(b) ==> lowered_recursive(
            *plan,
            final(ctx).nodes@,
            final(ctx).definitions@,
            old(ctx).bindings@,
            old(ctx).as_of,
            old(ctx).until,
            level,
            b,
        ),
    decreases plan,
{
    match plan {
        Plan::LetRec { ids, values, limits, body } => {
            if ids.len() != values.len() || ids.len() != limits.len() {
                proof {
                    assert(ctx.nodes@.take(ctx.nodes@.len() as int) =~= ctx.nodes@);
                    assert(ctx.definitions@.take(ctx.definitions@.len() as int)
                        =~= ctx.definitions@);
                }
                return Err(RenderError::MalformedLetRec);
            }
            if level == usize::MAX {
                proof {
                    assert(ctx.nodes@.take(ctx.nodes@.len() as int) =~= ctx.nodes@);
                    assert(ctx.definitions@.take(ctx.definitions@.len() as int)
                        =~= ctx.definitions@);
                }
                return Err(RenderError::NestedTooDeep);
            }
            let inner: usize = level + 1;
            let base: usize = ctx.bindings.len();
            let ghost start = *ctx;
            let ghost scope = scope_with(scope_of(start.bindings@), ids@);
            let variables = ctx.bind_variables(inner, ids);
            let ghost opened = *ctx;
            let ghost mut vs: Seq<CollectionBundle> = Seq::empty();
            let mut i: usize = 0;
            proof {
                opened.lemma_grown_reflexive();
                assert(values_done(
                    *values,
                    limits@,
                    ids@,
                    variables@,
                    opened.bindings@,
                    vs,
                    ctx.nodes@,
                    ctx.definitions@,
                    level,
                    start.as_of,
                    start.until,
                )) by {
                    reveal(values_done);
                }
            }
            while i < ids.len()
                invariant
                    i <= ids.len(),
                    ids@.len() == values@.len(),
                    ids@.len() == limits@.len(),
                    inner == level + 1,
                    base == start.bindings@.len(),
                    start == *old(ctx),
                    scope == scope_with(scope_of(start.bindings@), ids@),
                    ctx.wf(),
                    ctx.grown_from(start),
                    ctx.grown_from(opened),
                    opened.grown_from(start),
                    opened.nodes@.len() == start.nodes@.len() + 2 * ids@.len(),
                    base <= ctx.bindings@.len(),
                    ctx.bindings@.take(base as int) == start.bindings@,
                    scope_of(ctx.bindings@) == scope,
                    variables@.len() == ids@.len(),
                    forall|k: int|
                        0 <= k < ids@.len() ==> (#[trigger] variables@[k]).oks
                            == start.nodes@.len() + 2 * k && variables@[k].errs
                            == start.nodes@.len() + 2 * k + 1,
                    forall|k: int|
                        start.nodes@.len() <= k < opened.nodes@.len() ==> (
                        #[trigger] opened.nodes@[k]).operator is Variable,
                    forall|k: int|
                        start.nodes@.len() <= k < start.nodes@.len() + 2 * i ==> ctx.defined(k),
                    bindings_error(*values, scope, inner, 0) == bindings_error(
                        *values,
                        scope,
                        inner,
                        i as nat,
                    ),
                    vs.len() == i,
                    opened.bindings@ == bound_in_turn(
                        start.bindings@,
                        ids@,
                        variables@,
                        ids@.len(),
                    ),
                    ctx.bindings@ == bound_in_turn(opened.bindings@, ids@, vs, i as nat),
                    values_done(
                        *values,
                        limits@,
                        ids@,
                        variables@,
                        opened.bindings@,
                        vs,
                        ctx.nodes@,
                        ctx.definitions@,
                        level,
                        start.as_of,
                        start.until,
                    ),
                decreases ids.len() - i,
            {
                let ghost mid = *ctx;
                let ghost before = vs;
                let r = render_recursive_plan(ctx, inner, &values[i]);
                let ghost rendered = *ctx;
                proof {
                    ctx.lemma_grown_transitive(mid, start);
                    ctx.lemma_grown_transitive(mid, opened);
                }
                match r {
                    Err(e) => {
                        ctx.truncate_bindings(base);
                        return Err(e);
                    },
                    Ok(bundle) => {
                        let variable = variables[i];
                        proof {
                            assert(variable.oks == start.nodes@.len() + 2 * i);
                            ctx.lemma_grown_node(opened, variable.oks as int);
                            ctx.lemma_grown_node(opened, variable.errs as int);
                        }
                        ctx.insert_id(Id::Local(ids[i]), bundle);
                        let ghost bound = *ctx;
                        ctx.close_binding(level, variable, bundle, limits[i]);
                        proof {
                            vs = before.push(bundle);
                            lemma_bound_in_turn_prefix(
                                opened.bindings@,
                                ids@,
                                before,
                                vs,
                                i as nat,
                            );
                            lemma_value_closed(
                                *values,
                                limits@,
                                ids@,
                                variables@,
                                opened.bindings@,
                                before,
                                bundle,
                                mid.nodes@,
                                mid.definitions@,
                                rendered.nodes@,
                                rendered.definitions@,
                                ctx.nodes@,
                                ctx.definitions@,
                                bound.token,
                                level,
                                start.as_of,
                                start.until,
                            );
                            lemma_scope_push(rendered.bindings@, Id::Local(ids@[i as int]), bundle);
                            assert(ids@.contains(ids@[i as int]));
                            assert(scope.insert(Id::Local(ids@[i as int])) =~= scope);
                            assert(ctx.bindings@.take(base as int) =~= rendered.bindings@.take(
                                base as int,
                            ));
                            assert(bound.grown_from(start));
                            assert(bound.grown_from(opened));
                            ctx.lemma_grown_transitive(bound, start);
                            ctx.lemma_grown_transitive(bound, opened);
                            assert(bound.grown_from(mid));
                            ctx.lemma_grown_transitive(bound, mid);
                            let n = ctx.definitions@.len() as int;
                            assert(ctx.definitions@[n - 2].0 == variable.oks);
                            assert(ctx.definitions@[n - 1].0 == variable.errs);
                            assert forall|k: int|
                                start.nodes@.len() <= k < start.nodes@.len() + 2 * (i + 1)
                                implies ctx.defined(k) by {
                                if k < start.nodes@.len() + 2 * i {
                                    ctx.lemma_defined_grown(mid, k);
                                }
                            }
                        }
                    },
                }
                i = i + 1;
            }
            let ghost shut = *ctx;
            proof {
                assert forall|k: int| 0 <= k < ids@.len() implies scope_of(ctx.bindings@).contains(
                    Id::Local(#[trigger] ids@[k]),
                ) by {
                    assert(ids@.contains(ids@[k]));
                }
            }
            let leaves = ctx.leave_bindings(inner, ids);
            let ghost gone = *ctx;
            let r = render_recursive_plan(ctx, level, body);
            let ghost rendered = *ctx;
            ctx.truncate_bindings(base);
            proof {
                gone.lemma_grown_transitive(shut, start);
                rendered.lemma_grown_transitive(gone, start);
                gone.lemma_grown_transitive(shut, opened);
                rendered.lemma_grown_transitive(gone, opened);
                rendered.lemma_grown_transitive(gone, shut);
                assert(gone.bindings@.take(base as int) =~= shut.bindings@.take(base as int));
                if let Ok(b) = r {
                    lemma_loop_lowered(
                        *plan,
                        variables@,
                        vs,
                        leaves@,
                        start.bindings@,
                        opened.nodes@,
                        shut.nodes@,
                        shut.definitions@,
                        gone.nodes@,
                        ctx.nodes@,
                        ctx.definitions@,
                        start.as_of,
                        start.until,
                        level,
                        b,
                    );
                }
                assert forall|k: int|
                    start.nodes@.len() <= k < start.nodes@.len() + 2 * ids@.len() implies (
                #[trigger] ctx.nodes@[k]).operator is Variable && ctx.defined(k) by {
                    rendered.lemma_grown_node(opened, k);
                    gone.lemma_defined_grown(shut, k);
                    rendered.lemma_defined_grown(gone, k);
                    let j = choose|j: int|
                        0 <= j < rendered.definitions@.len() && (
                        #[trigger] rendered.definitions@[j]).0 == k;
                    assert(ctx.definitions@[j].0 == k);
                }
            }
            r
        },
        _ => {
            let r = render_plan(ctx, plan);
            r
        },
    }
}

/// An object to build: a plan, and the name that what it comes to is bound
/// to.
#[derive(Debug)]
pub struct BuildDesc {
    pub id: u64,
    pub plan: Plan,
}

/// What a dataflow is to be: what it reads, what it builds and what it
/// hands out.
#[derive(Debug)]
pub struct DataflowDescription {
    /// The sources that are read, by their names.
    pub source_imports: Vec<u64>,
    /// The indexes that are read: the name of each, and the name of the
    /// collection that it is an index on.
    pub index_imports: Vec<(u64, u64)>,
    /// The objects that are built, in the order in which they are built.
    pub objects_to_build: Vec<BuildDesc>,
    /// The indexes that are handed out: the name of each, and the name of
    /// the collection that it is an index on.
    pub index_exports: Vec<(u64, u64)>,
    /// The sinks that are handed out: the name of each, and the name of the
    /// collection that it takes.
    pub sink_exports: Vec<(u64, u64)>,
    /// The time from which on the results are to be right.
    pub as_of: Option<Frontier>,
    /// The time from which on nothing is asked for any more.
    pub until: Frontier,
}

/// What is handed out under the name `id`.
#[derive(Debug, Clone, Copy, PartialEq, Eq, Structural)]
pub struct Export {
    pub id: u64,
    pub bundle: CollectionBundle,
}

/// A dataflow that was built.
#[derive(Debug)]
pub struct Dataflow {
    pub context: Context,
    /// Whether bindings refer to themselves, so that the dataflow iterates.
    pub recursive: bool,
    /// The names that own a token: the sources, the indexes that are read
    /// and the objects.
    pub tokens: Vec<u64>,
    pub exports: Vec<Export>,
}

/// The names of `ids`, as names that the whole system knows.
pub open spec fn globals(ids: Seq<u64>) -> Set<Id> {
    Set::new(|id: Id| id matches Id::Global(x) && ids.contains(x))
}

/// The names that the first of `pairs` go by.
pub open spec fn firsts(pairs: Seq<(u64, u64)>) -> Seq<u64> {
    pairs.map_values(|p: (u64, u64)| p.0)
}

/// The names that the second of `pairs` go by.
pub open spec fn seconds(pairs: Seq<(u64, u64)>) -> Seq<u64> {
    pairs.map_values(|p: (u64, u64)| p.1)
}

/// The names of `objects`.
pub open spec fn object_ids(objects: Seq<BuildDesc>) -> Seq<u64> {
    objects.map_values(|o: BuildDesc| o.id)
}

/// Some object of `objects` is a binding that refers to itself.
pub open spec fn is_recursive(objects: Seq<BuildDesc>) -> bool {
    exists|k: int| 0 <= k < objects.len() && (#[trigger] objects[k]).plan is LetRec
}

impl DataflowDescription {
    /// The names that are bound when the first `k` objects are built: what
    /// is read, and those objects.
    pub open spec fn names(&self, k: int) -> Seq<u64> {
        self.source_imports@ + seconds(self.index_imports@) + object_ids(
            self.objects_to_build@,
        ).take(k)
    }

    /// Why the objects from the place `from` on cannot be built: the first
    /// fault of the first plan that has one.
    pub open spec fn objects_error(&self, from: nat) -> Option<RenderError>
        decreases self.objects_to_build@.len() - from,
    {
        if from >= self.objects_to_build@.len() {
            None
        } else {
            let plan = self.objects_to_build@[from as int].plan;
            let scope = globals(self.names(from as int));
            let fault = if is_recursive(self.objects_to_build@) {
                recursive_error(plan, scope, 0)
            } else {
                plan_error(plan, scope)
            };
            match fault {
                Some(e) => Some(e),
                None => self.objects_error(from + 1),
            }
        }
    }

    /// Why the dataflow cannot be built: the first fault of a plan, or else
    /// the first index, or else the first sink, that is handed out of a
    /// collection that is not there.
    pub open spec fn build_error(&self) -> Option<RenderError> {
        let scope = globals(self.names(self.objects_to_build@.len() as int));
        match self.objects_error(0) {
            Some(e) => Some(e),
            None => match exports_error(self.index_exports@, scope, 0) {
                Some(e) => Some(e),
                None => exports_error(self.sink_exports@, scope, 0),
            },
        }
    }
}

/// The first of `exports` from the place `from` on that is handed out of a
/// collection that is not bound in `scope`.
pub open spec fn exports_error(exports: Seq<(u64, u64)>, scope: Set<Id>, from: nat) -> Option<
    RenderError,
>
    decreases exports.len() - from,
{
    if from >= exports.len() {
        None
    } else if !scope.contains(Id::Global(exports[from as int].1)) {
        Some(RenderError::ExportNotFound(exports[from as int].0))
    } else {
        exports_error(exports, scope, from + 1)
    }
}

/// Binding one more name of the system adds it to the names that are
/// bound.
pub proof fn lemma_globals_push(ids: Seq<u64>, x: u64)
    ensures
        globals(ids.push(x)) == globals(ids).insert(Id::Global(x)),
{
    let pushed = ids.push(x);
    assert forall|id: Id| globals(pushed).contains(id) <==> globals(ids).insert(
        Id::Global(x),
    ).contains(id) by {
        if let Id::Global(y) = id {
            if pushed.contains(y) {
                let k = choose|k: int| 0 <= k < pushed.len() && pushed[k] == y;
                if k < ids.len() {
                    assert(ids[k] == y);
                }
            }
            if ids.contains(y) {
                let k = choose|k: int| 0 <= k < ids.len() && ids[k] == y;
                assert(pushed[k] == y);
            }
            if y == x {
                assert(pushed[ids.len() as int] == x);
            }
        }
    }
    assert(globals(pushed) =~= globals(ids).insert(Id::Global(x)));
}

/// The names of two lists together are the names of the one and the names
/// of the other.
pub proof fn lemma_globals_concat(a: Seq<u64>, b: Seq<u64>)
    ensures
        globals(a + b) == globals(a).union(globals(b)),
{
    let both = a + b;
    assert forall|id: Id| globals(both).contains(id) <==> globals(a).union(globals(b)).contains(
        id,
    ) by {
        if let Id::Global(y) = id {
            if both.contains(y) {
                let k = choose|k: int| 0 <= k < both.len() && both[k] == y;
                if k < a.len() {
                    assert(a[k] == y);
                } else {
                    assert(b[k - a.len()] == y);
                }
            }
            if a.contains(y) {
                let k = choose|k: int| 0 <= k < a.len() && a[k] == y;
                assert(both[k] == y);
            }
            if b.contains(y) {
                let k = choose|k: int| 0 <= k < b.len() && b[k] == y;
                assert(both[a.len() + k] == y);
            }
        }
    }
    assert(globals(both) =~= globals(a).union(globals(b)));
}

/// Whether some object of `objects` is a binding that refers to itself.
pub fn has_recursion(objects: &Vec<BuildDesc>) -> (recursive: bool)
    ensures
        recursive == is_recursive(objects@),
{
    let mut i: usize = 0;
    while i < objects.len()
        invariant
            i <= objects.len(),
            forall|k: int| 0 <= k < i ==> !((#[trigger] objects@[k]).plan is LetRec),
        decreases objects.len() - i,
    {
        if let Plan::LetRec { .. } = &objects[i].plan {
            return true;
        }
        i = i + 1;
    }
    false
}

/// Brings the sources `sources` into the dataflow of `ctx`, each under its
/// own token. Where there is an `as_of`, the rows of a source pass through
/// a node that holds back the first announcement of progress until the
/// source has come past it.
pub fn import_sources(
    ctx: &mut Context,
    sources: &Vec<u64>,
    as_of: Option<Frontier>,
    tokens: &mut Vec<u64>,
)
    requires
        old(ctx).wf(),
    ensures
        final(ctx).wf(),
        final(ctx).as_of == old(ctx).as_of,
        final(ctx).until == old(ctx).until,
        final(ctx).definitions@ == old(ctx).definitions@,
        scope_of(final(ctx).bindings@) == scope_of(old(ctx).bindings@).union(globals(sources@)),
        final(tokens)@ == old(tokens)@ + sources@,
        final(ctx).bindings@.len() == old(ctx).bindings@.len() + sources@.len(),
        forall|i: int|
            0 <= i < sources@.len() ==> {
                let binding = #[trigger] final(ctx).bindings@[old(ctx).bindings@.len() + i];
                let oks = final(ctx).nodes@[binding.1.oks as int];
                let errs = final(ctx).nodes@[binding.1.errs as int];
                &&& binding.0 == Id::Global(sources@[i])
                &&& oks.owner == Some(sources@[i])
                &&& errs == (Node {
                    operator: Operator::ImportErrors { id: sources@[i] },
                    owner: Some(sources@[i]),
                })
                &&& match as_of {
                    Some(a) => oks.operator matches Operator::SuppressEarlyProgress {
                        input,
                        as_of: held,
                    } && held == a && final(ctx).nodes@[input as int].operator == (
                    Operator::Import { id: sources@[i] }),
                    None => oks.operator == (Operator::Import { id: sources@[i] }),
                }
            },
{
    let ghost start = *ctx;
    let mut i: usize = 0;
    proof {
        assert(sources@.take(0) =~= Seq::<u64>::empty());
        assert(scope_of(ctx.bindings@).union(globals(Seq::<u64>::empty())) =~= scope_of(
            ctx.bindings@,
        ));
        assert(tokens@ + sources@.take(0) =~= tokens@);
    }
    while i < sources.len()
        invariant
            i <= sources.len(),
            start == *old(ctx),
            ctx.wf(),
            ctx.as_of == start.as_of,
            ctx.until == start.until,
            ctx.definitions@ == start.definitions@,
            start.nodes@.len() <= ctx.nodes@.len(),
            scope_of(ctx.bindings@) == scope_of(start.bindings@).union(
                globals(sources@.take(i as int)),
            ),
            tokens@ == old(tokens)@ + sources@.take(i as int),
            ctx.bindings@.len() == start.bindings@.len() + i,
            forall|k: int|
                0 <= k < i ==> {
                    let binding = #[trigger] ctx.bindings@[start.bindings@.len() + k];
                    let oks = ctx.nodes@[binding.1.oks as int];
                    let errs = ctx.nodes@[binding.1.errs as int];
                    &&& binding.0 == Id::Global(sources@[k])
                    &&& oks.owner == Some(sources@[k])
                    &&& errs == (Node {
                        operator: Operator::ImportErrors { id: sources@[k] },
                        owner: Some(sources@[k]),
                    })
                    &&& match as_of {
                        Some(a) => oks.operator matches Operator::SuppressEarlyProgress {
                            input,
                            as_of: held,
                        } && held == a && ctx.nodes@[input as int].operator == (
                        Operator::Import { id: sources@[k] }),
                        None => oks.operator == (Operator::Import { id: sources@[k] }),
                    }
                },
        decreases sources.len() - i,
    {
        let id = sources[i];
        let ghost mid = *ctx;
        ctx.set_shutdown_token(Some(id));
        let read = ctx.add(Operator::Import { id });
        let errs = ctx.add(Operator::ImportErrors { id });
        let oks = match as_of {
            Some(a) => ctx.add(Operator::SuppressEarlyProgress { input: read, as_of: a }),
            None => read,
        };
        let bundle = CollectionBundle { oks, errs };
        ctx.insert_id(Id::Global(id), bundle);
        tokens.push(id);
        proof {
            lemma_scope_push(mid.bindings@, Id::Global(id), bundle);
            lemma_globals_push(sources@.take(i as int), id);
            assert(sources@.take(i + 1) =~= sources@.take(i as int).push(id));
            assert(scope_of(ctx.bindings@) =~= scope_of(start.bindings@).union(
                globals(sources@.take(i + 1)),
            ));
            assert(old(tokens)@ + sources@.take(i + 1) =~= (old(tokens)@ + sources@.take(
                i as int,
            )).push(id));
            assert(forall|k: int| 0 <= k < mid.nodes@.len() ==> ctx.nodes@[k] == mid.nodes@[k]);
            assert forall|k: int| 0 <= k < i implies #[trigger] ctx.bindings@[start.bindings@.len()
                + k] == mid.bindings@[start.bindings@.len() + k] by {}
            assert forall|k: int| 0 <= k < i implies mid.has_nodes(
                (#[trigger] mid.bindings@[start.bindings@.len() + k]).1,
            ) by {}
        }
        i = i + 1;
    }
    proof {
        assert(sources@.take(sources@.len() as int) =~= sources@);
    }
}

/// Brings the indexes `imports` into the dataflow of `ctx`, each under its
/// own token, and binds each to the name of the collection that it is an
/// index on.
pub fn import_indexes(
    ctx: &mut Context,
    imports: &Vec<(u64, u64)>,
    tokens: &mut Vec<u64>,
)
    requires
        old(ctx).wf(),
    ensures
        final(ctx).wf(),
        final(ctx).as_of == old(ctx).as_of,
        final(ctx).until == old(ctx).until,
        final(ctx).definitions@ == old(ctx).definitions@,
        scope_of(final(ctx).bindings@) == scope_of(old(ctx).bindings@).union(
            globals(seconds(imports@)),
        ),
        final(tokens)@ == old(tokens)@ + firsts(imports@),
        final(ctx).bindings@.len() == old(ctx).bindings@.len() + imports@.len(),
        forall|i: int|
            0 <= i < imports@.len() ==> {
                let binding = #[trigger] final(ctx).bindings@[old(ctx).bindings@.len() + i];
                &&& binding.0 == Id::Global(imports@[i].1)
                &&& final(ctx).nodes@[binding.1.oks as int] == (Node {
                    operator: Operator::Import { id: imports@[i].0 },
                    owner: Some(imports@[i].0),
                })
                &&& final(ctx).nodes@[binding.1.errs as int] == (Node {
                    operator: Operator::ImportErrors { id: imports@[i].0 },
                    owner: Some(imports@[i].0),
                })
            },
{
    let ghost start = *ctx;
    let mut i: usize = 0;
    proof {
        assert(seconds(imports@.take(0)) =~= Seq::<u64>::empty());
        assert(scope_of(ctx.bindings@).union(globals(Seq::<u64>::empty())) =~= scope_of(
            ctx.bindings@,
        ));
        assert(tokens@ + firsts(imports@.take(0)) =~= tokens@);
    }
    while i < imports.len()
        invariant
            i <= imports.len(),
            start == *old(ctx),
            ctx.wf(),
            ctx.as_of == start.as_of,
            ctx.until == start.until,
            ctx.definitions@ == start.definitions@,
            scope_of(ctx.bindings@) == scope_of(start.bindings@).union(
                globals(seconds(imports@.take(i as int))),
            ),
            tokens@ == old(tokens)@ + firsts(imports@.take(i as int)),
            ctx.bindings@.len() == start.bindings@.len() + i,
            forall|k: int|
                0 <= k < i ==> {
                    let binding = #[trigger] ctx.bindings@[start.bindings@.len() + k];
                    &&& binding.0 == Id::Global(imports@[k].1)
                    &&& ctx.nodes@[binding.1.oks as int] == (Node {
                        operator: Operator::Import { id: imports@[k].0 },
                        owner: Some(imports@[k].0),
                    })
                    &&& ctx.nodes@[binding.1.errs as int] == (Node {
                        operator: Operator::ImportErrors { id: imports@[k].0 },
                        owner: Some(imports@[k].0),
                    })
                },
        decreases imports.len() - i,
    {
        let (index, on) = imports[i];
        let ghost mid = *ctx;
        ctx.set_shutdown_token(Some(index));
        let oks = ctx.add(Operator::Import { id: index });
        let errs = ctx.add(Operator::ImportErrors { id: index });
        let bundle = CollectionBundle { oks, errs };
        ctx.insert_id(Id::Global(on), bundle);
        tokens.push(index);
        proof {
            lemma_scope_push(mid.bindings@, Id::Global(on), bundle);
            lemma_globals_push(seconds(imports@.take(i as int)), on);
            assert(imports@.take(i + 1) =~= imports@.take(i as int).push(imports@[i as int]));
            assert(seconds(imports@.take(i + 1)) =~= seconds(imports@.take(i as int)).push(on));
            assert(scope_of(ctx.bindings@) =~= scope_of(start.bindings@).union(
                globals(seconds(imports@.take(i + 1))),
            ));
            assert(old(tokens)@ + firsts(imports@.take(i + 1)) =~= (old(tokens)@ + firsts(
                imports@.take(i as int),
            )).push(index));
            assert(forall|k: int| 0 <= k < mid.nodes@.len() ==> ctx.nodes@[k] == mid.nodes@[k]);
            assert forall|k: int| 0 <= k < i implies #[trigger] ctx.bindings@[start.bindings@.len()
                + k] == mid.bindings@[start.bindings@.len() + k] by {}
            assert forall|k: int| 0 <= k < i implies mid.has_nodes(
                (#[trigger] mid.bindings@[start.bindings@.len() + k]).1,
            ) by {}
        }
        i = i + 1;
    }
    proof {
        assert(imports@.take(imports@.len() as int) =~= imports@);
    }
}

/// Gives every one of `exports` the collection that it is handed out of.
pub fn export_collections(ctx: &Context, exports: &Vec<(u64, u64)>, out: &mut Vec<Export>) -> (r:
    Result<(), RenderError>)
    requires
        ctx.wf(),
    ensures
        match r {
            Ok(_) => exports_error(exports@, scope_of(ctx.bindings@), 0) is None && final(out)@.len() == old(out)@.len() + exports@.len() && final(out)@.take(
                old(out)@.len() as int,
            ) == old(out)@ && forall|i: int|
                0 <= i < exports@.len() ==> (#[trigger] final(out)@[old(out)@.len() + i]).id
                    == exports@[i].0 && Context::bound(ctx.bindings@, Id::Global(exports@[i].1))
                    == Some(final(out)@[old(out)@.len() + i].bundle),
            Err(e) => exports_error(exports@, scope_of(ctx.bindings@), 0) == Some(e),
        },
{
    let ghost scope = scope_of(ctx.bindings@);
    let ghost start = out@;
    let mut i: usize = 0;
    proof {
        assert(out@.take(out@.len() as int) =~= out@);
    }
    while i < exports.len()
        invariant
            i <= exports.len(),
            ctx.wf(),
            start == old(out)@,
            scope == scope_of(ctx.bindings@),
            exports_error(exports@, scope, 0) == exports_error(exports@, scope, i as nat),
            out@.len() == start.len() + i,
            out@.take(start.len() as int) == start,
            forall|k: int|
                0 <= k < i ==> (#[trigger] out@[start.len() + k]).id == exports@[k].0
                    && Context::bound(ctx.bindings@, Id::Global(exports@[k].1)) == Some(
                    out@[start.len() + k].bundle,
                ),
        decreases exports.len() - i,
    {
        let (id, on) = exports[i];
        let ghost before = out@;
        match ctx.lookup_id(Id::Global(on)) {
            None => {
                return Err(RenderError::ExportNotFound(id));
            },
            Some(bundle) => {
                out.push(Export { id, bundle });
                proof {
                    assert(out@.take(start.len() as int) =~= before.take(start.len() as int));
                    assert forall|k: int| 0 <= k < i implies #[trigger] out@[start.len() + k]
                        == before[start.len() + k] by {}
                }
            },
        }
        i = i + 1;
    }
    Ok(())
}

/// `bindings` with the first `k` of the objects with the names `ids` bound
/// in turn, each to the collection of `bundles` at its place.
pub open spec fn bound_objects(
    bindings: Seq<(Id, CollectionBundle)>,
    ids: Seq<u64>,
    bundles: Seq<CollectionBundle>,
    k: nat,
) -> Seq<(Id, CollectionBundle)>
    decreases k,
{
    if k == 0 {
        bindings
    } else {
        bound_objects(bindings, ids, bundles, (k - 1) as nat).push(
            (Id::Global(ids[k - 1]), bundles[k - 1]),
        )
    }
}

/// The nodes hold the first objects of `objects`, as many as `bs` holds,
/// each rendered to the collection of `bs` at its place where besides
/// `bindings` the objects before it are bound.
#[verifier::opaque]
pub open spec fn objects_built(
    objects: Seq<BuildDesc>,
    nodes: Seq<Node>,
    definitions: Seq<(usize, usize)>,
    bindings: Seq<(Id, CollectionBundle)>,
    as_of: Frontier,
    until: Frontier,
    bs: Seq<CollectionBundle>,
) -> bool {
    forall|k: int|
        0 <= k < bs.len() ==> lowered_recursive(
            objects[k].plan,
            nodes,
            definitions,
            bound_objects(bindings, object_ids(objects), bs, k as nat),
            as_of,
            until,
            0,
            #[trigger] bs[k],
        )
}

/// Holds of all bindings and collections; it marks what is read and what
/// the objects of a dataflow are rendered to.
pub open spec fn any_built(read: Seq<(Id, CollectionBundle)>, bs: Seq<CollectionBundle>) -> bool {
    true
}

/// What objects are bound to in turn depends on the collections up to the
/// last one that is bound only.
pub proof fn lemma_bound_objects_prefix(
    bindings: Seq<(Id, CollectionBundle)>,
    ids: Seq<u64>,
    a: Seq<CollectionBundle>,
    b: Seq<CollectionBundle>,
    k: nat,
)
    requires
        k <= a.len(),
        k <= b.len(),
        forall|j: int| 0 <= j < k ==> a[j] == b[j],
    ensures
        bound_objects(bindings, ids, a, k) == bound_objects(bindings, ids, b, k),
    decreases k,
{
    if k > 0 {
        lemma_bound_objects_prefix(bindings, ids, a, b, (k - 1) as nat);
    }
}

/// When one more object is rendered, the objects up to it are rendered.
pub proof fn lemma_object_built(
    objects: Seq<BuildDesc>,
    nodes: Seq<Node>,
    definitions: Seq<(usize, usize)>,
    after: Seq<Node>,
    after_definitions: Seq<(usize, usize)>,
    bindings: Seq<(Id, CollectionBundle)>,
    as_of: Frontier,
    until: Frontier,
    before: Seq<CollectionBundle>,
    bundle: CollectionBundle,
)
    requires
        before.len() < objects.len(),
        objects_built(objects, nodes, definitions, bindings, as_of, until, before),
        extends_nodes(nodes, after),
        extends_definitions(definitions, after_definitions),
        lowered_recursive(
            objects[before.len() as int].plan,
            after,
            after_definitions,
            bound_objects(bindings, object_ids(objects), before, before.len()),
            as_of,
            until,
            0,
            bundle,
        ),
    ensures
        objects_built(
            objects,
            after,
            after_definitions,
            bindings,
            as_of,
            until,
            before.push(bundle),
        ),
{
    reveal(objects_built);
    let bs = before.push(bundle);
    assert forall|k: int| 0 <= k < bs.len() implies lowered_recursive(
        objects[k].plan,
        after,
        after_definitions,
        bound_objects(bindings, object_ids(objects), bs, k as nat),
        as_of,
        until,
        0,
        #[trigger] bs[k],
    ) by {
        lemma_bound_objects_prefix(bindings, object_ids(objects), before, bs, k as nat);
        if k < before.len() {
            assert(bs[k] == before[k]);
            lemma_lowered_recursive_grown(
                objects[k].plan,
                nodes,
                definitions,
                after,
                after_definitions,
                bound_objects(bindings, object_ids(objects), before, k as nat),
                as_of,
                until,
                0,
                before[k],
            );
        }
    }
}

/// Builds the objects of `dataflow` in their order, each under its own
/// token, and binds what each comes to to its name.
pub fn build_objects(
    ctx: &mut Context,
    dataflow: &DataflowDescription,
    recursive: bool,
    tokens: &mut Vec<u64>,
) -> (r: Result<(), RenderError>)
    requires
        old(ctx).wf(),
        recursive == is_recursive(dataflow.objects_to_build@),
        scope_of(old(ctx).bindings@) == globals(dataflow.names(0)),
    ensures
        final(ctx).wf(),
        final(ctx).as_of == old(ctx).as_of,
        final(ctx).until == old(ctx).until,
        match r {
            Ok(_) => dataflow.objects_error(0) is None && scope_of(final(ctx).bindings@)
                == globals(dataflow.names(dataflow.objects_to_build@.len() as int)) && final(tokens)@ == old(tokens)@ + object_ids(dataflow.objects_to_build@),
            Err(e) => dataflow.objects_error(0) == Some(e),
        },
        // Every object is bound to what its plan is rendered to where
        // what was bound and the objects before it are bound.
        r is Ok ==> exists|bs: Seq<CollectionBundle>| #[trigger]
            any_bundles(bs) && bs.len() == dataflow.objects_to_build@.len()
                && final(ctx).bindings@ == bound_objects(
                old(ctx).bindings@,
                object_ids(dataflow.objects_to_build@),
                bs,
                bs.len(),
            ) && objects_built(
                dataflow.objects_to_build@,
                final(ctx).nodes@,
                final(ctx).definitions@,
                old(ctx).bindings@,
                old(ctx).as_of,
                old(ctx).until,
                bs,
            ),
{
    let ghost start = *ctx;
    let ghost mut bs: Seq<CollectionBundle> = Seq::empty();
    let mut i: usize = 0;
    proof {
        assert(objects_built(
            dataflow.objects_to_build@,
            ctx.nodes@,
            ctx.definitions@,
            start.bindings@,
            start.as_of,
            start.until,
            bs,
        )) by {
            reveal(objects_built);
        }
    }
    proof {
        assert(tokens@ + object_ids(dataflow.objects_to_build@).take(0) =~= tokens@);
    }
    while i < dataflow.objects_to_build.len()
        invariant
            i <= dataflow.objects_to_build.len(),
            start == *old(ctx),
            recursive == is_recursive(dataflow.objects_to_build@),
            ctx.wf(),
            ctx.as_of == start.as_of,
            ctx.until == start.until,
            scope_of(ctx.bindings@) == globals(dataflow.names(i as int)),
            tokens@ == old(tokens)@ + object_ids(dataflow.objects_to_build@).take(i as int),
            dataflow.objects_error(0) == dataflow.objects_error(i as nat),
            bs.len() == i,
            ctx.bindings@ == bound_objects(
                start.bindings@,
                object_ids(dataflow.objects_to_build@),
                bs,
                i as nat,
            ),
            objects_built(
                dataflow.objects_to_build@,
                ctx.nodes@,
                ctx.definitions@,
                start.bindings@,
                start.as_of,
                start.until,
                bs,
            ),
        decreases dataflow.objects_to_build.len() - i,
    {
        let object = &dataflow.objects_to_build[i];
        let ghost mid = *ctx;
        let ghost before = bs;
        ctx.set_shutdown_token(Some(object.id));
        tokens.push(object.id);
        let r = if recursive {
            render_recursive_plan(ctx, 0, &object.plan)
        } else {
            render_plan(ctx, &object.plan)
        };
        match r {
            Err(e) => {
                return Err(e);
            },
            Ok(bundle) => {
                let ghost rendered = *ctx;
                ctx.insert_id(Id::Global(object.id), bundle);
                proof {
                    bs = before.push(bundle);
                    lemma_bound_objects_prefix(
                        start.bindings@,
                        object_ids(dataflow.objects_to_build@),
                        before,
                        bs,
                        i as nat,
                    );
                    lemma_object_built(
                        dataflow.objects_to_build@,
                        mid.nodes@,
                        mid.definitions@,
                        ctx.nodes@,
                        ctx.definitions@,
                        start.bindings@,
                        start.as_of,
                        start.until,
                        before,
                        bundle,
                    );
                    lemma_scope_push(rendered.bindings@, Id::Global(object.id), bundle);
                    lemma_globals_push(dataflow.names(i as int), object.id);
                    let ids = object_ids(dataflow.objects_to_build@);
                    assert(ids.take(i + 1) =~= ids.take(i as int).push(object.id));
                    assert(dataflow.names(i + 1) =~= dataflow.names(i as int).push(object.id));
                    assert(old(tokens)@ + ids.take(i + 1) =~= (old(tokens)@ + ids.take(
                        i as int,
                    )).push(object.id));
                }
            },
        }
        i = i + 1;
    }
    proof {
        let ids = object_ids(dataflow.objects_to_build@);
        assert(ids.take(ids.len() as int) =~= ids);
        assert(any_bundles(bs));
    }
    Ok(())
}

/// Builds the dataflow that `dataflow` describes: brings in the sources
/// and the indexes that it reads, builds its objects in their order, each
/// with what was read and what was built before it in scope, and looks up
/// what its indexes and its sinks are handed out of.
///
/// The dataflow is built if every plan can be rendered and every index and
/// sink is handed out of a collection that is there. Every source, every
/// index that is read and every object has its own token, and the nodes
/// that are made for it are held by that token.
pub fn build_compute_dataflow(dataflow: &DataflowDescription) -> (r: Result<Dataflow, RenderError>)
    ensures
        match r {
            Ok(d) => {
                let indexes = dataflow.index_exports@;
                let sinks = dataflow.sink_exports@;
                &&& dataflow.build_error() is None
                &&& d.context.wf()
                &&& d.context.until == dataflow.until
                &&& d.context.as_of == match dataflow.as_of {
                    Some(a) => a,
                    None => Frontier::least(),
                }
                &&& d.recursive == is_recursive(dataflow.objects_to_build@)
                &&& d.tokens@ == dataflow.source_imports@ + firsts(dataflow.index_imports@)
                    + object_ids(dataflow.objects_to_build@)
                &&& scope_of(d.context.bindings@) == globals(
                    dataflow.names(dataflow.objects_to_build@.len() as int),
                )
                &&& d.exports@.len() == indexes.len() + sinks.len()
                &&& forall|i: int|
                    0 <= i < indexes.len() ==> (#[trigger] d.exports@[i]).id == indexes[i].0
                        && Context::bound(d.context.bindings@, Id::Global(indexes[i].1)) == Some(
                        d.exports@[i].bundle,
                    )
                &&& forall|i: int|
                    0 <= i < sinks.len() ==> (#[trigger] d.exports@[indexes.len() + i]).id
                        == sinks[i].0 && Context::bound(
                        d.context.bindings@,
                        Id::Global(sinks[i].1),
                    ) == Some(d.exports@[indexes.len() + i].bundle)
                // Behind what is read, every object is bound to what its
                // plan is rendered to where what is read and the objects
                // before it are bound.
                &&& exists|read: Seq<(Id, CollectionBundle)>, bs: Seq<CollectionBundle>| #[trigger]
                    any_built(read, bs) && scope_of(read) == globals(dataflow.names(0))
                        && bs.len() == dataflow.objects_to_build@.len()
                        && d.context.bindings@ == bound_objects(
                        read,
                        object_ids(dataflow.objects_to_build@),
                        bs,
                        bs.len(),
                    ) && objects_built(
                        dataflow.objects_to_build@,
                        d.context.nodes@,
                        d.context.definitions@,
                        read,
                        d.context.as_of,
                        d.context.until,
                        bs,
                    )
            },
            Err(e) => dataflow.build_error() == Some(e),
        },
{
    let recursive = has_recursion(&dataflow.objects_to_build);
    let as_of = match dataflow.as_of {
        Some(a) => a,
        None => Frontier::minimum(),
    };
    let mut ctx = Context::new(as_of, dataflow.until);
    let mut tokens: Vec<u64> = Vec::new();
    proof {
        assert(scope_of(ctx.bindings@) =~= globals(Seq::<u64>::empty()));
    }
    import_sources(&mut ctx, &dataflow.source_imports, dataflow.as_of, &mut tokens);
    import_indexes(&mut ctx, &dataflow.index_imports, &mut tokens);
    proof {
        let read = dataflow.source_imports@ + seconds(dataflow.index_imports@);
        assert(dataflow.names(0) =~= read);
        lemma_globals_concat(dataflow.source_imports@, seconds(dataflow.index_imports@));
        assert(scope_of(ctx.bindings@) =~= globals(read));
    }
    let ghost read = ctx.bindings@;
    match build_objects(&mut ctx, dataflow, recursive, &mut tokens) {
        Err(e) => {
            return Err(e);
        },
        Ok(_) => {},
    }
    let ghost bs = choose|bs: Seq<CollectionBundle>| #[trigger]
        any_bundles(bs) && bs.len() == dataflow.objects_to_build@.len() && ctx.bindings@
            == bound_objects(read, object_ids(dataflow.objects_to_build@), bs, bs.len())
            && objects_built(
            dataflow.objects_to_build@,
            ctx.nodes@,
            ctx.definitions@,
            read,
            ctx.as_of,
            ctx.until,
            bs,
        );
    proof {
        assert(any_built(read, bs));
    }
    let mut exports: Vec<Export> = Vec::new();
    match export_collections(&ctx, &dataflow.index_exports, &mut exports) {
        Err(e) => {
            return Err(e);
        },
        Ok(_) => {},
    }
    let ghost first = exports@;
    match export_collections(&ctx, &dataflow.sink_exports, &mut exports) {
        Err(e) => {
            return Err(e);
        },
        Ok(_) => {},
    }
    proof {
        assert forall|i: int| 0 <= i < dataflow.index_exports@.len() implies (
        #[trigger] exports@[i]).id == dataflow.index_exports@[i].0 && Context::bound(
            ctx.bindings@,
            Id::Global(dataflow.index_exports@[i].1),
        ) == Some(exports@[i].bundle) by {
            assert(exports@.take(first.len() as int)[i] == first[i]);
            assert(first[0 + i].id == dataflow.index_exports@[i].0);
        }
    }
    Ok(Dataflow { context: ctx, recursive, tokens, exports })
}

/// `time` moved on to `as_of`.
pub fn advance_by(time: u64, as_of: &Frontier) -> (moved: u64)
    ensures
        moved == advanced(time, *as_of),
{
    match as_of.bound {
        Some(bound) => if time >= bound {
            time
        } else {
            bound
        },
        None => time,
    }
}

/// What keeps the first announcement of progress behind a source back
/// until the source has come past `as_of`, so that what the source holds at
/// `as_of` is not taken for an empty beginning followed by everything.
#[derive(Debug, Clone, Copy)]
pub struct SuppressEarlyProgress {
    pub as_of: Frontier,
    /// Whether the right to emit at the least time is still held.
    pub early_cap: bool,
}

impl SuppressEarlyProgress {
    /// `time` lies beyond `as_of`.
    pub open spec fn beyond(as_of: Frontier, time: u64) -> bool {
        as_of.bound matches Some(bound) && bound < time
    }

    /// With the least time still held.
    pub fn new(as_of: Frontier) -> (s: SuppressEarlyProgress)
        ensures
            s.as_of == as_of,
            s.early_cap,
    {
        SuppressEarlyProgress { as_of, early_cap: true }
    }

    /// The time at which data that came at `time` is sent on: its own time
    /// where that lies beyond `as_of`, and the least time otherwise. There
    /// is none where the least time was let go already.
    pub fn time_for(&self, time: u64) -> (out: Option<u64>)
        ensures
            out == if SuppressEarlyProgress::beyond(self.as_of, time) {
                Some(time)
            } else if self.early_cap {
                Some(0u64)
            } else {
                None
            },
    {
        let beyond = match self.as_of.bound {
            Some(bound) => bound < time,
            None => false,
        };
        if beyond {
            Some(time)
        } else if self.early_cap {
            Some(0)
        } else {
            None
        }
    }

    /// Takes note of the frontier of the input: once it has come past
    /// `as_of`, the least time is let go.
    pub fn observe_frontier(&mut self, frontier: Frontier)
        ensures
            final(self).as_of == old(self).as_of,
            final(self).early_cap == (old(self).early_cap && frontier.le(old(self).as_of)),
    {
        if !frontier.less_equal(&self.as_of) {
            self.early_cap = false;
        }
    }
}

/// Which of the numbers of times a dataflow works with is the time of the
/// system, and how to step it back.
pub trait RenderTimestamp: Sized {
    /// The time of the system in this time.
    spec fn system(&self) -> u64;

    /// This time with `time` as the time of the system.
    spec fn with_system(&self, time: u64) -> Self;

    /// The time of the system in this time.
    fn system_time(&self) -> (time: u64)
        ensures
            time == self.system(),
    ;

    /// The time of events in this time, which is the time of the system.
    fn event_time(&self) -> (time: u64)
        ensures
            time == self.system(),
    ;

    /// This time stepped back by one, so that nothing that was there at
    /// an earlier time is taken for this time when times are compacted.
    fn step_back(&self) -> (back: Self)
        ensures
            back == self.with_system(
                if self.system() > 0 {
                    (self.system() - 1) as u64
                } else {
                    0u64
                },
            ),
    ;
}

/// The time of the system alone.
#[derive(Debug, Clone, Copy, PartialEq, Eq, Structural)]
pub struct Timestamp {
    pub internal: u64,
}

/// The time of the system with the number of an iteration.
#[derive(Debug, Clone, Copy, PartialEq, Eq, Structural)]
pub struct Product {
    pub outer: u64,
    pub inner: u64,
}

impl RenderTimestamp for Timestamp {
    open spec fn system(&self) -> u64 {
        self.internal
    }

    open spec fn with_system(&self, time: u64) -> Timestamp {
        (Timestamp { internal: time })
    }

    fn system_time(&self) -> (time: u64) {
        self.internal
    }

    fn event_time(&self) -> (time: u64) {
        self.internal
    }

    fn step_back(&self) -> (back: Timestamp) {
        Timestamp { internal: self.internal.saturating_sub(1) }
    }
}

impl RenderTimestamp for Product {
    open spec fn system(&self) -> u64 {
        self.outer
    }

    open spec fn with_system(&self, time: u64) -> Product {
        (Product { outer: time, inner: self.inner })
    }

    fn system_time(&self) -> (time: u64) {
        self.outer
    }

    fn event_time(&self) -> (time: u64) {
        self.outer
    }

    fn step_back(&self) -> (back: Product) {
        Product { outer: self.outer.saturating_sub(1), inner: self.inner }
    }
}

} // verus!
